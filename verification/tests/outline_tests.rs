use mdbook_tools::entry::{Entry, EntryKind};
use mdbook_tools::outline::{project, render, summary_command, Node, Options, OutlineLine};

fn file(dir: &str, name: &str) -> Node {
    Node {
        entry: Entry {
            name: name.to_string(),
            path: format!("{}/{}", dir, name),
            kind: EntryKind::File,
        },
        children: Vec::new(),
    }
}

fn dir(parent: &str, name: &str, children: Vec<Node>) -> Node {
    Node {
        entry: Entry {
            name: name.to_string(),
            path: format!("{}/{}", parent, name),
            kind: EntryKind::Directory,
        },
        children,
    }
}

fn options() -> Options {
    Options {
        ignore: Vec::new(),
        include_unnumbered_directories: false,
        include_directory_content_without_section: false,
    }
}

fn line(depth: usize, title: &str, target: &str) -> OutlineLine {
    OutlineLine { depth, title: title.to_string(), target: target.to_string() }
}

#[test]
fn directory_with_index_and_two_files() {
    let root = dir(
        "/book",
        "01_guide",
        vec![
            file("/book/01_guide", "02_b.md"),
            file("/book/01_guide", "README.md"),
            file("/book/01_guide", "01_a.md"),
        ],
    );
    assert_eq!(
        project(&root, &options()),
        vec![
            line(0, "Guide", "/book/01_guide/README.md"),
            line(1, "A", "/book/01_guide/01_a.md"),
            line(1, "B", "/book/01_guide/02_b.md"),
        ]
    );
}

#[test]
fn directory_without_number_is_no_section_but_is_walked() {
    let inner = dir(
        "/book/notes",
        "01_part",
        vec![file("/book/notes/01_part", "README.md"), file("/book/notes/01_part", "01_x.md")],
    );
    let root = dir(
        "/",
        "book",
        vec![dir(
            "/book",
            "notes",
            vec![file("/book/notes", "README.md"), file("/book/notes", "01_skipped.md"), inner],
        )],
    );
    assert_eq!(
        project(&root, &options()),
        vec![
            line(0, "Part", "/book/notes/01_part/README.md"),
            line(1, "X", "/book/notes/01_part/01_x.md"),
        ]
    );
}

#[test]
fn directory_without_number_is_a_section_where_asked_for() {
    let root = dir(
        "/",
        "my_book",
        vec![file("/my_book", "README.md"), file("/my_book", "01_first_steps.md")],
    );
    let mut with_all = options();
    with_all.include_unnumbered_directories = true;
    assert_eq!(
        project(&root, &with_all),
        vec![
            line(0, "My Book", "/my_book/README.md"),
            line(1, "First Steps", "/my_book/01_first_steps.md"),
        ]
    );
    assert_eq!(project(&root, &options()), Vec::new());
}

#[test]
fn directory_without_index_lists_nothing_of_its_own() {
    let root = dir(
        "/",
        "01_book",
        vec![
            file("/01_book", "01_a.md"),
            dir("/01_book", "02_part", vec![file("/01_book/02_part", "README.md")]),
        ],
    );
    assert_eq!(project(&root, &options()), vec![line(0, "Part", "/01_book/02_part/README.md")]);
}

#[test]
fn directory_without_index_lists_its_files_where_asked_for() {
    let root = dir(
        "/",
        "01_book",
        vec![
            file("/01_book", "01_a.md"),
            dir("/01_book", "02_part", vec![file("/01_book/02_part", "README.md")]),
        ],
    );
    let mut with_content = options();
    with_content.include_directory_content_without_section = true;
    assert_eq!(
        project(&root, &with_content),
        vec![line(0, "A", "/01_book/01_a.md"), line(0, "Part", "/01_book/02_part/README.md")]
    );
}

#[test]
fn directory_without_number_lists_nothing_even_without_section() {
    let root = dir("/", "book", vec![file("/book", "01_a.md")]);
    let mut with_content = options();
    with_content.include_directory_content_without_section = true;
    assert_eq!(project(&root, &with_content), Vec::new());
    with_content.include_unnumbered_directories = true;
    assert_eq!(project(&root, &with_content), vec![line(0, "A", "/book/01_a.md")]);
}

#[test]
fn files_that_are_left_out() {
    let root = dir(
        "/",
        "01_book",
        vec![
            file("/01_book", "README.md"),
            file("/01_book", "01_picture.png"),
            file("/01_book", "notes.md"),
            file("/01_book", "x1_notes.md"),
            file("/01_book", "_notes.md"),
            file("/01_book", "02_kept.md"),
            file("/01_book", "03_md"),
            file("/01_book", "04_.md"),
        ],
    );
    assert_eq!(
        project(&root, &options()),
        vec![
            line(0, "Book", "/01_book/README.md"),
            line(1, "Kept", "/01_book/02_kept.md"),
            line(1, "", "/01_book/04_.md"),
        ]
    );
}

#[test]
fn second_number_in_a_file_name_is_left_out_of_the_title() {
    let root = dir(
        "/",
        "01_book",
        vec![
            file("/01_book", "README.md"),
            file("/01_book", "01_02_twice_numbered.md"),
            file("/01_book", "02_a_2_b.md"),
        ],
    );
    assert_eq!(
        project(&root, &options()),
        vec![
            line(0, "Book", "/01_book/README.md"),
            line(1, "Twice Numbered", "/01_book/01_02_twice_numbered.md"),
            line(1, "A 2 B", "/01_book/02_a_2_b.md"),
        ]
    );
}

#[test]
fn children_come_in_the_order_of_their_names() {
    let root = dir(
        "/",
        "01_book",
        vec![
            file("/01_book", "10_ten.md"),
            dir("/01_book", "03_part", vec![file("/01_book/03_part", "README.md")]),
            file("/01_book", "README.md"),
            file("/01_book", "02_two.md"),
            file("/01_book", "1_one.md"),
        ],
    );
    assert_eq!(
        project(&root, &options()),
        vec![
            line(0, "Book", "/01_book/README.md"),
            line(1, "Two", "/01_book/02_two.md"),
            line(1, "Part", "/01_book/03_part/README.md"),
            line(1, "Ten", "/01_book/10_ten.md"),
            line(1, "One", "/01_book/1_one.md"),
        ]
    );
}

#[test]
fn ignored_directory_is_left_out_with_all_below_it() {
    let part = dir(
        "/01_book",
        "01_part",
        vec![
            file("/01_book/01_part", "README.md"),
            dir(
                "/01_book/01_part",
                "01_deeper",
                vec![file("/01_book/01_part/01_deeper", "README.md")],
            ),
        ],
    );
    let root = dir(
        "/",
        "01_book",
        vec![file("/01_book", "README.md"), part, file("/01_book", "02_kept.md")],
    );
    let mut ignoring = options();
    ignoring.ignore = vec!["/elsewhere".to_string(), "/01_book/01_part".to_string()];
    assert_eq!(
        project(&root, &ignoring),
        vec![line(0, "Book", "/01_book/README.md"), line(1, "Kept", "/01_book/02_kept.md")]
    );
    ignoring.ignore = vec!["//01_book".to_string()];
    assert_eq!(project(&root, &ignoring), Vec::new());
}

#[test]
fn ignored_file_is_listed_all_the_same() {
    let root =
        dir("/", "01_book", vec![file("/01_book", "README.md"), file("/01_book", "01_a.md")]);
    let mut ignoring = options();
    ignoring.ignore = vec!["/01_book/01_a.md".to_string()];
    assert_eq!(
        project(&root, &ignoring),
        vec![line(0, "Book", "/01_book/README.md"), line(1, "A", "/01_book/01_a.md")]
    );
}

#[test]
fn sections_nest() {
    let deepest = dir(
        "/01_a/01_b",
        "01_c",
        vec![file("/01_a/01_b/01_c", "README.md"), file("/01_a/01_b/01_c", "01_leaf.md")],
    );
    let middle = dir("/01_a", "01_b", vec![deepest, file("/01_a/01_b", "README.md")]);
    let root = dir("/", "01_a", vec![middle, file("/01_a", "README.md")]);
    assert_eq!(
        project(&root, &options()),
        vec![
            line(0, "A", "/01_a/README.md"),
            line(1, "B", "/01_a/01_b/README.md"),
            line(2, "C", "/01_a/01_b/01_c/README.md"),
            line(3, "Leaf", "/01_a/01_b/01_c/01_leaf.md"),
        ]
    );
}

#[test]
fn directory_that_is_no_section_does_not_nest() {
    let inner = dir("/01_a/02_b", "01_c", vec![file("/01_a/02_b/01_c", "README.md")]);
    let middle = dir("/01_a", "02_b", vec![inner, file("/01_a/02_b", "01_hidden.md")]);
    let root = dir("/", "01_a", vec![middle, file("/01_a", "README.md")]);
    assert_eq!(
        project(&root, &options()),
        vec![line(0, "A", "/01_a/README.md"), line(1, "C", "/01_a/02_b/01_c/README.md")]
    );
}

#[test]
fn file_as_root_gives_nothing() {
    let mut root = file("/", "01_a.md");
    root.entry.kind = EntryKind::Directory;
    assert_eq!(project(&root, &options()), Vec::new());
}

#[test]
fn render_writes_one_line_for_each() {
    let lines = vec![
        line(0, "Guide", "/book/01_guide/README.md"),
        line(1, "A", "/book/01_guide/01_a.md"),
        line(3, "Deep Down", "x"),
    ];
    assert_eq!(
        render(&lines),
        "- [Guide](/book/01_guide/README.md)\n\t- [A](/book/01_guide/01_a.md)\n\t\t\t- [Deep Down](x)\n"
    );
    assert_eq!(render(&Vec::new()), "");
}

#[test]
fn summary_command_gives_the_text() {
    let root = dir(
        "/book",
        "01_guide",
        vec![
            file("/book/01_guide", "README.md"),
            file("/book/01_guide", "01_a.md"),
            file("/book/01_guide", "02_b.md"),
        ],
    );
    assert_eq!(
        summary_command(&root, &options()),
        "- [Guide](/book/01_guide/README.md)\n\t- [A](/book/01_guide/01_a.md)\n\t- [B](/book/01_guide/02_b.md)\n"
    );
}

#[test]
fn summary_command_twice_gives_the_same_text() {
    let root = dir(
        "/",
        "01_book",
        vec![
            file("/01_book", "02_b.md"),
            dir("/01_book", "03_part", vec![file("/01_book/03_part", "README.md")]),
            file("/01_book", "README.md"),
            file("/01_book", "01_a.md"),
        ],
    );
    let first = summary_command(&root, &options());
    let second = summary_command(&root, &options());
    assert_eq!(first, second);
    assert_eq!(first.lines().count(), 4);
}
