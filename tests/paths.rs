use upim::config::Config;
use upim::paths::{
    add_name_index_and_ext, collection_path, expand_tilde, normalize_contact_name,
    CollectionError,
};

#[test]
fn test_expand_tilde() {
    assert_eq!(
        expand_tilde("~/my/path", Some("/home/user")),
        Some("/home/user/my/path".to_string())
    );
    assert_eq!(expand_tilde("~", Some("/home/user/")), Some("/home/user/".to_string()));
    assert_eq!(expand_tilde("~/my/path", None), None);
}

#[test]
fn expand_tilde_ignored_in_path() {
    assert_eq!(expand_tilde("my/~/path", Some("/home/user")).unwrap(), "my/~/path");
    assert_eq!(expand_tilde("~user/x", Some("/home/user")).unwrap(), "~user/x");
}

#[test]
fn collection_paths() {
    let conf = Config::new()
        .set("Collections", "work", "~/work")
        .set("Collections", "rel", "contacts/rel")
        .set("Collections", "abs", "/srv/contacts");
    assert_eq!(collection_path(&conf, "work", Some("/home/u")), Ok("/home/u/work".to_string()));
    assert_eq!(collection_path(&conf, "abs", None), Ok("/srv/contacts".to_string()));
    assert_eq!(
        collection_path(&conf, "rel", None),
        Err(CollectionError::CannotMakeAbsolutePath)
    );
    assert_eq!(
        collection_path(&conf, "none", None),
        Err(CollectionError::CollectionDoesNotExist)
    );
    assert_eq!(
        collection_path(&conf, "work", None),
        Err(CollectionError::CannotMakeAbsolutePath)
    );

    let conf = conf.set_default("collection_base", "/data/");
    assert_eq!(collection_path(&conf, "rel", None), Ok("/data/contacts/rel".to_string()));
}

#[test]
fn contact_file_names() {
    assert_eq!(normalize_contact_name("Some Person"), "Some_Person");
    assert_eq!(add_name_index_and_ext("Some_Person", 0), "Some_Person.contact");
    assert_eq!(add_name_index_and_ext("Some_Person", 7), "Some_Person7.contact");
    assert_eq!(add_name_index_and_ext("a", 1203), "a1203.contact");
    assert_eq!(add_name_index_and_ext("a", u32::MAX), "a4294967295.contact");
}

#[test]
fn expand_tilde_drops_repeated_separators() {
    assert_eq!(expand_tilde("~//x", Some("/home/u")), Some("/home/u/x".to_string()));
    assert_eq!(expand_tilde("~///", Some("/home/u")), Some("/home/u".to_string()));
    let conf = Config::new().set("Collections", "c", "~//work");
    assert_eq!(collection_path(&conf, "c", Some("/home/u")), Ok("/home/u/work".to_string()));
}
