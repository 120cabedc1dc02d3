use pm::EntriesStuff;
use pm::Entry;
use pm::EntryStore;

fn s(t: &str) -> String {
    String::from(t)
}

#[test]
fn entry_clone_and_eq() {
    let original = Entry {
        name: s("name"),
        username: s("username"),
        password: s("password"),
        notes: s("notes"),
    };
    assert_eq!(original, original.clone());
}

#[test]
fn entries_serialize_and_deserialize() {
    let a = EntryStore::new();
    let atext = "{}";
    assert_eq!(a.serialize(), atext);
    assert_eq!(EntryStore::deserialize(&a.serialize()).unwrap(), a);

    let b = a.update(
        s("First"),
        Entry {
            name: s("First"),
            username: s("First Username"),
            password: s("First Password"),
            notes: s("First Notes"),
        },
    );
    let btext = r###"{"First":{"name":"First","username":"First Username","password":"First Password","notes":"First Notes"}}"###;
    assert_eq!(b.serialize(), btext);
    assert_eq!(EntryStore::deserialize(&b.serialize()).unwrap(), b);

    let c = b.update(
        s("2nd"),
        Entry {
            name: s("2nd"),
            username: s("2nd Username"),
            password: s("2nd Password"),
            notes: s("2nd Notes"),
        },
    );
    let ctext = r###"{"2nd":{"name":"2nd","username":"2nd Username","password":"2nd Password","notes":"2nd Notes"},"First":{"name":"First","username":"First Username","password":"First Password","notes":"First Notes"}}"###;
    assert_eq!(c.serialize(), ctext);
    assert_eq!(EntryStore::deserialize(&c.serialize()).unwrap(), c);
}

#[test]
fn not_json_is_a_parse_error() {
    assert!(EntryStore::deserialize("not json").is_err());
}

#[test]
fn round_trip_with_escaped_characters() {
    let store = EntryStore::new().update(
        s("qu\"ote"),
        Entry {
            name: s("qu\"ote"),
            username: s("back\\slash"),
            password: s("line\nbreak\ttab"),
            notes: s("bell\u{0007}"),
        },
    );
    let text = store.serialize();
    assert_eq!(EntryStore::deserialize(&text).unwrap(), store);
}

#[test]
fn unicode_escapes_decode() {
    let text = r###"{"k":{"name":"\u0041\u00e9","username":"\/","password":"\b\f","notes":""}}"###;
    let store = EntryStore::deserialize(text).unwrap();
    let e = store.get("k").unwrap();
    assert_eq!(e.name, "A\u{00e9}");
    assert_eq!(e.username, "/");
    assert_eq!(e.password, "\u{0008}\u{000C}");
}

#[test]
fn whitespace_between_tokens_is_accepted() {
    assert_eq!(EntryStore::deserialize("  { }  ").unwrap(), EntryStore::new());
    let text = " {\n \"k\" : {\t\"name\": \"k\", \"username\": \"u\", \"password\": \"p\", \"notes\": \"n\"}\n} ";
    let store = EntryStore::deserialize(text).unwrap();
    assert_eq!(store.get("k").unwrap().password, "p");
}

#[test]
fn duplicate_keys_are_rejected() {
    let text = r###"{"a":{"name":"a","username":"u","password":"p","notes":"n"},"a":{"name":"a","username":"u","password":"p","notes":"n"}}"###;
    assert!(EntryStore::deserialize(text).is_err());
}

#[test]
fn malformed_shapes_are_rejected() {
    assert!(EntryStore::deserialize("").is_err());
    assert!(EntryStore::deserialize("{").is_err());
    assert!(EntryStore::deserialize("[]").is_err());
    assert!(EntryStore::deserialize(r###"{"a":{"name":"a"}}"###).is_err());
    assert!(EntryStore::deserialize(r###"{"a":1}"###).is_err());
    assert!(EntryStore::deserialize("{} trailing").is_err());
    assert!(EntryStore::deserialize(r###"{"a":{"name":"a","username":"u","password":"p","notes":"unterminated}}"###).is_err());
}

#[test]
fn keys_out_of_order_still_parse() {
    let text = r###"{"b":{"name":"b","username":"u","password":"p","notes":"n"},"a":{"name":"a","username":"u","password":"p","notes":"n"}}"###;
    let store = EntryStore::deserialize(text).unwrap();
    let keys = store.keys();
    assert_eq!(keys, vec![s("a"), s("b")]);
}
