use byond_get::path::binaries_prefix;
use byond_get::path::full_prefix;
use byond_get::plan::plan;
use byond_get::Extraction;

fn names(list: &[&str]) -> Vec<String> {
    list.iter().map(|name| (*name).to_owned()).collect()
}

fn extraction(index: usize, name: &str, path: &str, executable: bool) -> Extraction {
    Extraction { index, name: name.to_owned(), path: path.to_owned(), executable }
}

#[test]
fn plans_nothing_from_an_empty_directory() {
    assert_eq!(plan(&Vec::new(), full_prefix()), Vec::new());
}

#[test]
fn plans_the_files_under_the_root_in_order() {
    let directory = names(&[
        "byond/",
        "byond/bin/",
        "byond/bin/DreamDaemon",
        "byond/bin/libbyond.so",
        "stray.txt",
        "byond/readme.txt",
        "byond/../evil",
        "byond\\cfg\\daemon.txt",
    ]);
    assert_eq!(
        plan(&directory, full_prefix()),
        vec![
            extraction(2, "byond/bin/DreamDaemon", "bin/DreamDaemon", true),
            extraction(3, "byond/bin/libbyond.so", "bin/libbyond.so", false),
            extraction(5, "byond/readme.txt", "readme.txt", true),
            extraction(7, "byond\\cfg\\daemon.txt", "cfg/daemon.txt", true),
        ]
    );
    assert_eq!(
        plan(&directory, binaries_prefix()),
        vec![
            extraction(2, "byond/bin/DreamDaemon", "DreamDaemon", true),
            extraction(3, "byond/bin/libbyond.so", "libbyond.so", false),
        ]
    );
}

#[test]
fn plans_every_entry_that_goes_to_the_same_path() {
    let directory = names(&["byond/a", "byond\\a", "byond/a"]);
    assert_eq!(
        plan(&directory, full_prefix()),
        vec![
            extraction(0, "byond/a", "a", true),
            extraction(1, "byond\\a", "a", true),
            extraction(2, "byond/a", "a", true),
        ]
    );
}

#[test]
fn plans_nothing_where_nothing_is_under_the_root() {
    let directory = names(&["readme.txt", "byond/", "other/bin/x"]);
    assert_eq!(plan(&directory, full_prefix()), Vec::new());
    assert_eq!(plan(&directory, binaries_prefix()), Vec::new());
}
