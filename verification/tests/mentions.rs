use herdr::mentions::{key, leading_mentions, resolve};
use herdr::room::Member;

fn member(pane: &str, name: &str, session: Option<&str>) -> Member {
    Member {
        pane_id: pane.into(),
        terminal_id: format!("term_{pane}"),
        agent: "pi".into(),
        name: name.into(),
        session: session.map(str::to_owned),
    }
}

fn members() -> Vec<Member> {
    vec![
        member("w4:pE", "🗝 Keystone", Some("Path:/a.jsonl")),
        member("w4:pQ", "🎵 Tuning Fork", Some("Path:/b.jsonl")),
        member(
            "w7:p5",
            "{#e0af68}⋈ {#f7768e}S{#ff9e64}p{#e0af68}l{#9ece6a}i{#7dcfff}c{#bb9af7}e",
            Some("Path:/c.jsonl"),
        ),
        member("w4:pZ", "Ghost", None),
    ]
}

#[test]
fn plain_text_is_broadcast() {
    assert_eq!(resolve("hello everyone", &members()), Ok(None));
    assert_eq!(resolve("mail me at a@b.c", &members()), Ok(None));
}

#[test]
fn leading_mentions_stop_at_first_word() {
    assert_eq!(
        leading_mentions("@Keystone @Sift, hi @Cairn"),
        vec!["Keystone", "Sift"]
    );
    assert_eq!(leading_mentions("hi @Keystone"), Vec::<String>::new());
}

#[test]
fn resolves_by_name_ignoring_icons_case_and_markup() {
    let r = resolve("@keystone @Splice what colour?", &members())
        .unwrap()
        .unwrap();
    assert_eq!(
        r.iter().map(|x| x.pane_id.as_str()).collect::<Vec<_>>(),
        ["w4:pE", "w7:p5"]
    );
    assert_eq!(r[0].session, "Path:/a.jsonl");
}

#[test]
fn multi_word_names_quoted_or_greedy() {
    for text in [
        "@\"Tuning Fork\" tune",
        "@Tuning Fork tune",
        "@Tuning Fork, tune",
        "@Tuning Fork @Keystone tune",
    ] {
        let r = resolve(text, &members()).unwrap().unwrap();
        assert_eq!(r[0].pane_id, "w4:pQ", "{text}");
    }
    let r = resolve("@Tuning Fork @Keystone tune", &members())
        .unwrap()
        .unwrap();
    assert_eq!(r.len(), 2);
    assert!(resolve("@Tuning what", &members())
        .unwrap_err()
        .contains("no such member"));
}

#[test]
fn multi_word_names_use_dot_or_underscore() {
    for form in ["@Tuning.Fork", "@tuning_fork", "@TuningFork"] {
        let r = resolve(&format!("{form} tune"), &members())
            .unwrap()
            .unwrap();
        assert_eq!(r[0].pane_id, "w4:pQ");
    }
}

#[test]
fn pane_id_addressing_and_dedup() {
    let r = resolve("@w4:pE @Keystone hi", &members()).unwrap().unwrap();
    assert_eq!(r.len(), 1);
}

#[test]
fn unknown_ambiguous_and_sessionless_are_errors() {
    assert!(resolve("@Nobody hi", &members())
        .unwrap_err()
        .contains("no such member"));
    assert!(resolve("@Ghost hi", &members())
        .unwrap_err()
        .contains("no live session"));
    let mut twins = members();
    twins.push(member("w9:p1", "Keystone", Some("Path:/d.jsonl")));
    let err = resolve("@Keystone hi", &twins).unwrap_err();
    assert!(err.contains("ambiguous") && err.contains("w9:p1"));
    let r = resolve("@w9:p1 hi", &twins).unwrap().unwrap();
    assert_eq!(r[0].pane_id, "w9:p1");
}

#[test]
fn error_texts_are_exact() {
    assert_eq!(
        resolve("@Nobody hi", &members()).unwrap_err(),
        "@Nobody: no such member here (members: 🗝 Keystone, 🎵 Tuning Fork, \
         {#e0af68}⋈ {#f7768e}S{#ff9e64}p{#e0af68}l{#9ece6a}i{#7dcfff}c{#bb9af7}e, Ghost)"
    );
    assert_eq!(
        resolve("@Ghost hi", &members()).unwrap_err(),
        "@Ghost has no live session; cannot be addressed"
    );
    let mut twins = members();
    twins.push(member("w9:p1", "Keystone", Some("Path:/d.jsonl")));
    assert_eq!(
        resolve("@Keystone hi", &twins).unwrap_err(),
        "@Keystone is ambiguous (w4:pE, w9:p1); use @<pane-id>"
    );
}

#[test]
fn keys_drop_markup_icons_and_case() {
    assert_eq!(key("{#e0af68}⋈ {#f7768e}S{#ff9e64}plice"), "splice");
    assert_eq!(key("🎵 Tuning Fork"), "tuningfork");
    assert_eq!(key("w4:pE"), "w4pe");
    assert_eq!(key("{#zzzzzz}x"), "zzzzzzx");
}

#[test]
fn quoted_mentions_and_trailing_punctuation() {
    assert_eq!(leading_mentions("@\"A B\" @c: rest"), vec!["A B", "c"]);
    assert_eq!(leading_mentions("@\"unterminated"), Vec::<String>::new());
    assert_eq!(leading_mentions("@\"\" x"), Vec::<String>::new());
    assert_eq!(leading_mentions("@, x"), Vec::<String>::new());
}
