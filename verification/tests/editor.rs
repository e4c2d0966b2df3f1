use steno::{escape_text, interpret, movement_events, serialize, Behaviors, Event, KeyName, INDENT_UNIT};

fn text(s: &str) -> Event {
    Event::Text(s.to_string())
}

fn key(k: KeyName, n: usize) -> Event {
    Event::Key { key: k, n }
}

#[test]
fn key_names() {
    assert_eq!(KeyName::BackSpace.name(), "BackSpace");
    assert_eq!(KeyName::Up.name(), "Up");
    assert_eq!(KeyName::Enter.name(), "Enter");
    assert_eq!(INDENT_UNIT, "    ");
}

#[test]
fn plain_editor_types_verbatim() {
    let st = interpret(&[text("a{b}(c)\"d")], Behaviors::plain());
    assert_eq!(st.buffer, "a{b}(c)\"d");
    assert_eq!(st.rest, 9);
    assert_eq!(st.target, None);
}

#[test]
fn smart_editor_auto_closes_and_types_over() {
    let evs = [text("f("), Event::Mark(0), text(")")];
    let st = interpret(&evs, Behaviors::smart());
    assert_eq!(st.buffer, "f()");
    assert_eq!(st.rest, 3);
    assert_eq!(st.target, Some(2));
    let st = interpret(&[text("f(")], Behaviors::smart());
    assert_eq!(st.buffer, "f()");
    assert_eq!(st.rest, 2);
}

#[test]
fn closer_after_opener_matches_plain() {
    for pair in ["()", "[]", "{}"] {
        let s = interpret(&[text(pair)], Behaviors::smart());
        let p = interpret(&[text(pair)], Behaviors::plain());
        assert_eq!(s.buffer, p.buffer);
        assert_eq!(s.rest, p.rest);
    }
}

#[test]
fn smart_quotes_pair_and_type_over() {
    let st = interpret(&[text("\"a\"")], Behaviors::smart());
    assert_eq!(st.buffer, "\"a\"");
    assert_eq!(st.rest, 3);
}

#[test]
fn smart_indent_expands_blocks() {
    let st = interpret(&[text("{"), key(KeyName::Enter, 1)], Behaviors::smart_indent());
    assert_eq!(st.buffer, "{\n    \n}");
    assert_eq!(st.rest, 6);
}

#[test]
fn backspace_undoes_one_typed_character() {
    let st = interpret(&[text("ab"), key(KeyName::BackSpace, 1)], Behaviors::plain());
    assert_eq!(st.buffer, "a");
    assert_eq!(st.rest, 1);
}

#[test]
fn right_undoes_left() {
    let st = interpret(&[text("ab"), key(KeyName::Left, 1), key(KeyName::Right, 1)], Behaviors::plain());
    assert_eq!(st.rest, 2);
    let st = interpret(&[text("ab"), key(KeyName::Left, 1)], Behaviors::plain());
    assert_eq!(st.rest, 1);
}

#[test]
fn home_end_up_down() {
    let evs = [text("abc\nde"), key(KeyName::Up, 1)];
    let st = interpret(&evs, Behaviors::plain());
    assert_eq!(st.rest, 2);
    let evs = [text("abc\nde"), key(KeyName::Home, 1)];
    assert_eq!(interpret(&evs, Behaviors::plain()).rest, 4);
    let evs = [text("abc\nde"), key(KeyName::Up, 1), key(KeyName::End, 1)];
    assert_eq!(interpret(&evs, Behaviors::plain()).rest, 3);
    let evs = [text("abc\nde"), key(KeyName::Up, 1), key(KeyName::Down, 1)];
    assert_eq!(interpret(&evs, Behaviors::plain()).rest, 6);
}

#[test]
fn escape_text_cases() {
    assert_eq!(escape_text("a b"), "a b");
    assert_eq!(escape_text(" a"), "{^ ^}a");
    assert_eq!(escape_text("a "), "a{^ ^}");
    assert_eq!(escape_text("a  b"), "a{^ ^}{^ ^}b");
    assert_eq!(escape_text("{x}\n\t"), "\\{x\\}\\n\\t");
    assert_eq!(escape_text("a\n b"), "a\\n{^ ^}b");
    assert_eq!(escape_text(""), "");
}

#[test]
fn serialize_groups_keys_and_batches_text() {
    assert_eq!(serialize(&[text("f()"), key(KeyName::Left, 1), Event::Mark(0)]), "f(){#Left}");
    assert_eq!(
        serialize(&[key(KeyName::Up, 2), key(KeyName::End, 1), key(KeyName::Left, 3)]),
        "{#Up Up End Left Left Left}"
    );
    assert_eq!(serialize(&[text("a"), key(KeyName::Enter, 1), text(" b")]), "a\\n{^ ^}b");
    assert_eq!(serialize(&[]), "");
}

#[test]
fn movement_events_paths() {
    let evs = movement_events("abc\ndef", 7, 1).expect("moves");
    assert_eq!(serialize(&evs), "{#Up End Left Left}");
    let evs = movement_events("abc", 3, 1).expect("moves");
    assert_eq!(serialize(&evs), "{#Left Left}");
    assert!(movement_events("abc", 2, 2).expect("moves").is_empty());
    assert_eq!(
        movement_events("abc", 1, 3).err().expect("rejected").message(),
        "movement target is right of the resting cursor"
    );
    assert_eq!(
        movement_events("abc\nd", 1, 5).err().expect("rejected").message(),
        "movement target is below the resting cursor"
    );
}

#[test]
fn movement_lands_on_target() {
    let buffer = "ab\ncdef\ng";
    let evs = movement_events(buffer, 9, 4).expect("moves");
    let mut all = vec![text(buffer)];
    all.extend(evs);
    let st = interpret(&all, Behaviors::plain());
    assert_eq!(st.rest, 4);
}

#[test]
fn typed_text_then_movement_reaches_every_earlier_offset() {
    let buffer = "ab\n\ncdef\ng";
    let n = buffer.chars().count();
    for to in 0..=n {
        let evs = movement_events(buffer, n, to).expect("moves");
        let mut all = vec![text(buffer)];
        all.extend(evs);
        let st = interpret(&all, Behaviors::plain());
        assert_eq!(st.rest, to);
        assert_eq!(st.buffer, buffer);
    }
}
