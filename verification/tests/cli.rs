use pm::AddError;
use pm::DeleteOutcome;
use pm::EntriesStuff;
use pm::Entry;
use pm::EntryStore;
use pm::OpenError;
use pm::ResolutionError;

fn s(t: &str) -> String {
    String::from(t)
}

fn entry(prefix: &str) -> Entry {
    Entry {
        name: s(prefix),
        username: format!("{} username", prefix),
        password: format!("{} password", prefix),
        notes: format!("{} notes", prefix),
    }
}

#[test]
fn test_readline() {
    assert_eq!(pm::readline("y\n"), "y");
}

#[test]
fn readline_trims_both_ends() {
    assert_eq!(pm::readline("  spaced out \t\n"), "spaced out");
    assert_eq!(pm::readline(""), "");
    assert_eq!(pm::readline(" \n"), "");
}

#[test]
fn test_open() {
    // An absent file with consent gives a new, empty store.
    let new_entries = pm::open(None, "y").unwrap();
    assert_eq!(new_entries.serialize(), "{}");

    // Save a new entry, then re-open from the saved text.
    let updated = new_entries.update(
        s("new"),
        Entry {
            name: s("new"),
            username: s("new username"),
            password: s("new password"),
            notes: s("new notes"),
        },
    );
    let text = updated.serialize();
    assert_eq!(
        text,
        r###"{"new":{"name":"new","username":"new username","password":"new password","notes":"new notes"}}"###
    );
    let reopened = pm::open(Some(&text), "").unwrap();
    assert_eq!(reopened, updated);
}

#[test]
fn open_declined_and_bad_content() {
    assert_eq!(pm::open(None, "n"), Err(OpenError::Declined));
    assert!(pm::open(Some("not json"), "y").is_err());
}

#[test]
fn test_list() {
    let entries = EntryStore::new().update(s("one"), entry("one")).update(s("two"), entry("two"));
    assert_eq!(pm::list(&entries), "1: one\n2: two\n");
}

#[test]
fn test_add() {
    let entries = pm::add(
        &EntryStore::new(),
        s("myname"),
        s("myusername"),
        s("mypassword"),
        s("mynotes"),
    )
    .unwrap();
    let expected_entries = EntryStore::new().update(
        s("myname"),
        Entry {
            name: s("myname"),
            username: s("myusername"),
            password: s("mypassword"),
            notes: s("mynotes"),
        },
    );
    assert_eq!(entries, expected_entries);

    // Repeating "myname" is refused, so uniqueness is enforced; the flow
    // then retries with a fresh name.
    let refused = pm::add(
        &entries,
        s("myname"),
        s("mysecondusername"),
        s("mysecondpassword"),
        s("mysecondnotes"),
    );
    assert_eq!(refused.unwrap_err(), AddError::DuplicateName);
    let new_entries = pm::add(
        &entries,
        s("mysecondname"),
        s("mysecondusername"),
        s("mysecondpassword"),
        s("mysecondnotes"),
    )
    .unwrap();
    let expected_new_entries = expected_entries.update(
        s("mysecondname"),
        Entry {
            name: s("mysecondname"),
            username: s("mysecondusername"),
            password: s("mysecondpassword"),
            notes: s("mysecondnotes"),
        },
    );
    assert_eq!(new_entries, expected_new_entries);
}

#[test]
fn add_rejects_an_empty_password() {
    let r = pm::add(&EntryStore::new(), s("a"), s("u"), s(""), s("n"));
    assert_eq!(r.unwrap_err(), AddError::EmptyPassword);
}

#[test]
fn test_edit() {
    let original_entries = EntryStore::new().update(
        s("myname"),
        Entry {
            name: s("myname"),
            username: s("myusername"),
            password: s("mypassword"),
            notes: s("mynotes"),
        },
    );

    // Empty answers keep every field.
    let first_update =
        pm::edit(&original_entries, "myname", s(""), s(""), s(""), s("")).unwrap();
    assert_eq!(first_update, original_entries);

    // Edits without changing the name.
    let second_update = pm::edit(
        &first_update,
        "myname",
        s(""),
        s("newusername"),
        s("newpassword"),
        s("newnotes"),
    )
    .unwrap();
    assert_eq!(
        second_update,
        EntryStore::new().update(
            s("myname"),
            Entry {
                name: s("myname"),
                username: s("newusername"),
                password: s("newpassword"),
                notes: s("newnotes"),
            },
        )
    );

    // Update the name and ensure the entry under the old name is deleted.
    let renamed = pm::edit(
        &first_update,
        "myname",
        s("newname"),
        s("newusername"),
        s("newpassword"),
        s("newnotes"),
    )
    .unwrap();
    assert_eq!(
        renamed,
        EntryStore::new().update(
            s("newname"),
            Entry {
                name: s("newname"),
                username: s("newusername"),
                password: s("newpassword"),
                notes: s("newnotes"),
            },
        )
    );
}

#[test]
fn edit_of_a_missing_entry_fails() {
    assert!(pm::edit(&EntryStore::new(), "ghost", s(""), s(""), s(""), s("")).is_err());
}

#[test]
fn test_delete() {
    let entries = EntryStore::new().update(s("exists"), entry("exists"));

    let (wrong_name_entries, outcome) = pm::delete(&entries, "doesn't exist", "");
    assert_eq!(outcome, DeleteOutcome::NoSuchEntry);
    assert_eq!(wrong_name_entries, entries);

    let (abort_entries, outcome) = pm::delete(&entries, "exists", "n");
    assert_eq!(outcome, DeleteOutcome::Kept);
    assert_eq!(abort_entries, entries);

    let (deleted_entries, outcome) = pm::delete(&entries, "exists", "y");
    assert_eq!(outcome, DeleteOutcome::Deleted);
    assert_eq!(deleted_entries, EntryStore::new());
}

#[test]
fn show_renders_an_entry() {
    let entries = EntryStore::new().update(s("one"), entry("one"));
    assert_eq!(
        pm::show(&entries, "one").unwrap(),
        "Name: one\nUsername: one username\nPassword: one password\nNotes: one notes\n"
    );
    assert!(pm::show(&entries, "two").is_none());
}

#[test]
fn resolution_by_name_and_by_index() {
    let store = EntryStore::new().update(s("First"), entry("First")).update(s("2nd"), entry("2nd"));
    assert_eq!(store.keys(), vec![s("2nd"), s("First")]);
    assert_eq!(pm::resolve("1", &store), Ok(s("2nd")));
    assert_eq!(pm::resolve("2", &store), Ok(s("First")));
    assert_eq!(pm::resolve("First", &store), Ok(s("First")));
    assert_eq!(pm::resolve("0", &store), Err(ResolutionError::NotFoundByIndex));
    assert_eq!(pm::resolve("3", &store), Err(ResolutionError::NotFoundByIndex));
    assert_eq!(pm::resolve("nonexistent", &store), Err(ResolutionError::NotFoundByName));
    assert_eq!(
        pm::resolve("99999999999999999999999999", &store),
        Err(ResolutionError::NotFoundByIndex)
    );
}
