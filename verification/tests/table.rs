use localoco::compiler::compile;
use localoco::strings::Strings;

#[test]
fn strings() {
    let mut s = Strings::new("en_US", "English (US)");
    s.add_string("ui.hello", "Hello, World! ");
    s.add_string("ui.cancel", "Cancel");
    assert_eq!(s.get_lang_id(), "en_US");
    assert_eq!(s.get_lang_name(), "English (US)");
    assert_eq!(s.translate("ui.hello"), "Hello, World! ");
    assert_eq!(s.translate("key.not.exist"), "key.not.exist");
    let bytes = compile(&s.jsonize()).unwrap();
    let recov = Strings::load(&bytes).unwrap();
    assert_eq!(s.translate("ui.hello"), recov.translate("ui.hello"));
}

#[test]
fn a_new_table_is_empty() {
    let s = Strings::new("eo_EO", "Esperanto");
    assert_eq!(s.get_lang_id(), "eo_EO");
    assert_eq!(s.get_lang_name(), "Esperanto");
    assert_eq!(s.translate("anything"), "anything");
    assert_eq!(s.translate(""), "");
}

#[test]
fn a_missing_key_is_shown_as_it_is() {
    let mut s = Strings::new("en_US", "English (US)");
    assert_eq!(s.translate("no.such.key"), "no.such.key");
    s.add_string("some.key", "some text");
    assert_eq!(s.translate("no.such.key"), "no.such.key");
    assert_eq!(s.translate("some.ke"), "some.ke");
    assert_eq!(s.translate("some.key."), "some.key.");
}

#[test]
fn the_last_write_wins() {
    let mut s = Strings::new("en_US", "English (US)");
    s.add_string("k", "first");
    s.add_string("other", "kept");
    s.add_string("k", "second");
    assert_eq!(s.translate("k"), "second");
    assert_eq!(s.translate("other"), "kept");
    s.add_string("k", "second");
    assert_eq!(s.translate("k"), "second");
}

#[test]
fn an_overwritten_entry_keeps_its_place() {
    let mut s = Strings::new("en", "English");
    s.add_string("a", "1");
    s.add_string("b", "2");
    s.add_string("a", "3");
    let mut t = Strings::new("en", "English");
    t.add_string("a", "3");
    t.add_string("b", "2");
    assert_eq!(s.encode().unwrap(), t.encode().unwrap());
}

#[test]
fn an_empty_key_and_an_empty_value_are_entries() {
    let mut s = Strings::new("", "");
    s.add_string("", "empty key");
    s.add_string("empty value", "");
    assert_eq!(s.translate(""), "empty key");
    assert_eq!(s.translate("empty value"), "");
    assert_eq!(s.get_lang_id(), "");
}

#[test]
fn a_clone_has_the_same_entries() {
    let mut s = Strings::new("zh_CN", "简体中文");
    s.add_string("ui.hello", "你好");
    s.add_string("ui.cancel", "取消");
    let mut c = s.clone();
    assert_eq!(c.get_lang_id(), "zh_CN");
    assert_eq!(c.get_lang_name(), "简体中文");
    assert_eq!(c.translate("ui.hello"), "你好");
    assert_eq!(c.translate("ui.cancel"), "取消");
    assert_eq!(c.encode().unwrap(), s.encode().unwrap());
    c.add_string("ui.hello", "您好");
    assert_eq!(c.translate("ui.hello"), "您好");
    assert_eq!(s.translate("ui.hello"), "你好");
}

#[test]
fn many_entries_are_found_again() {
    let mut s = Strings::new("en", "English");
    for i in 0..500 {
        s.add_string(&format!("key.{}", i), &format!("value {}", i));
    }
    for i in 0..500 {
        assert_eq!(s.translate(&format!("key.{}", i)), format!("value {}", i));
    }
    assert_eq!(s.translate("key.500"), "key.500");
}
