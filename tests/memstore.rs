use kvs::memstore::{run, KeyValueStore};

#[test]
fn process_set_get_delete() {
    let mut store = KeyValueStore::new();
    let k = Some("name");
    let v = Some("ada");
    let none: Option<&str> = None;
    assert_eq!(store.process("set".to_owned(), (&k, &v)), Ok("Value set for key name\n".to_owned()));
    assert_eq!(store.get("name"), Some(&"ada".to_owned()));
    assert_eq!(
        store.process("get".to_owned(), (&k, &none)),
        Ok("Value for key name: ada\n".to_owned())
    );
    assert_eq!(store.process("delete".to_owned(), (&k, &none)), Ok("Key name deleted\n".to_owned()));
    assert_eq!(
        store.process("get".to_owned(), (&k, &none)),
        Ok("No data found for key name\n".to_owned())
    );
    assert_eq!(store.process("delete".to_owned(), (&k, &none)), Err("Key not in store\n"));
}

#[test]
fn process_refusals() {
    let mut store = KeyValueStore::new();
    let k = Some("a");
    let none: Option<&str> = None;
    assert_eq!(store.process("set".to_owned(), (&none, &k)), Err("Must provide key\n"));
    assert_eq!(store.process("set".to_owned(), (&k, &none)), Err("Must provide value\n"));
    assert_eq!(store.process("get".to_owned(), (&none, &none)), Err("Must provide key\n"));
    assert_eq!(store.process("delete".to_owned(), (&none, &none)), Err("Must provide key\n"));
    assert_eq!(store.process("rm".to_owned(), (&k, &none)), Err("Unknown command\n"));
    assert_eq!(store.get("a"), None);
}

#[test]
fn map_operations() {
    let mut store = KeyValueStore::new();
    store.set("a".to_owned(), "1".to_owned());
    store.set("a".to_owned(), "2".to_owned());
    assert_eq!(store.get("a"), Some(&"2".to_owned()));
    assert_eq!(store.delete("a"), Some("2".to_owned()));
    assert_eq!(store.delete("a"), None);
}

#[test]
fn run_uses_a_fresh_map() {
    let k = Some("a");
    let v = Some("1");
    let none: Option<&str> = None;
    assert_eq!(run("set".to_owned(), (&k, &v)), Ok("Value set for key a\n".to_owned()));
    assert_eq!(run("get".to_owned(), (&k, &none)), Ok("No data found for key a\n".to_owned()));
    assert_eq!(run("nope".to_owned(), (&k, &none)), Err("Unknown command\n"));
}
