//! From a tree of numbered directories and files to the lines of an outline.

use crate::entry::{Entry, EntryKind, EntryView};
use crate::model::views;
use crate::name_codec::{
    decode, decode_spec, has_prefix, lemma_separator_is_underscore, separator_index,
    split_number_from_name,
};
use crate::sorting::{
    ascending, lemma_insert_at, lemma_sorted_by_ascending, lemma_sorted_by_item,
    lemma_sorted_by_permutes, sorted_by,
};
use crate::text::{
    chars_eq, chars_le, chars_of, lemma_lex_le_total, lemma_lex_le_transitive, lex_le,
    string_of_range,
};
use crate::title::{title_of, title_spec};
use vstd::prelude::*;

verus! {

/// A file or a directory together with all that lies below it. The children
/// of a file are not looked at.
#[derive(Debug, PartialEq, Eq)]
pub struct Node {
    pub entry: Entry,
    pub children: Vec<Node>,
}

/// What a `Node` stands for.
pub struct NodeView {
    pub entry: EntryView,
    pub children: Seq<NodeView>,
}

impl View for Node {
    type V = NodeView;

    open spec fn view(&self) -> NodeView {
        tree_of(*self)
    }
}

/// The tree that `node` stands for: its entry, and the trees of its children.
pub open spec fn tree_of(node: Node) -> NodeView
    decreases node,
{
    NodeView {
        entry: node.entry@,
        children: Seq::new(
            node.children@.len(),
            |i: int|
                if 0 <= i < node.children@.len() {
                    tree_of(node.children@[i])
                } else {
                    arbitrary()
                },
        ),
    }
}

/// What the outline takes in and what it leaves out.
#[derive(Debug, PartialEq, Eq)]
pub struct Options {
    /// Paths of directories that are left out together with all below them.
    pub ignore: Vec<String>,
    /// Directories without a number get a section too.
    pub include_unnumbered_directories: bool,
    /// The files of a directory are listed even where it has no section.
    pub include_directory_content_without_section: bool,
}

/// What `Options` stand for.
pub struct OptionsView {
    pub ignore: Seq<Seq<char>>,
    pub include_unnumbered_directories: bool,
    pub include_directory_content_without_section: bool,
}

impl View for Options {
    type V = OptionsView;

    open spec fn view(&self) -> OptionsView {
        OptionsView {
            ignore: views(self.ignore@),
            include_unnumbered_directories: self.include_unnumbered_directories,
            include_directory_content_without_section: self.include_directory_content_without_section,
        }
    }
}

/// One line of the outline: a link with a title, nested `depth` levels deep.
#[derive(Debug, PartialEq, Eq)]
pub struct OutlineLine {
    pub depth: usize,
    pub title: String,
    pub target: String,
}

/// What an `OutlineLine` stands for.
pub struct OutlineLineView {
    pub depth: nat,
    pub title: Seq<char>,
    pub target: Seq<char>,
}

impl View for OutlineLine {
    type V = OutlineLineView;

    open spec fn view(&self) -> OutlineLineView {
        OutlineLineView { depth: self.depth as nat, title: self.title@, target: self.target@ }
    }
}

/// The name of the file that stands for its directory in the outline.
pub open spec fn index_name() -> Seq<char> {
    "README.md"@
}

/// The ending of the files that the outline lists.
pub open spec fn extension() -> Seq<char> {
    ".md"@
}

/// The order of the children of a directory: that of their names as they
/// stand, number and all.
pub open spec fn by_name() -> spec_fn(NodeView, NodeView) -> bool {
    |a: NodeView, b: NodeView| lex_le(a.entry.name, b.entry.name)
}

/// The children of `dir` in the order in which the outline takes them.
pub open spec fn ordered_children(dir: NodeView) -> Seq<NodeView> {
    sorted_by(dir.children, by_name())
}

/// The number of children in front of the first one that is named as the
/// index file is, or the number of all children where there is none.
pub open spec fn index_position(children: Seq<NodeView>) -> nat
    decreases children.len(),
{
    if children.len() == 0 || children[0].entry.name == index_name() {
        0
    } else {
        1 + index_position(children.skip(1))
    }
}

/// The directory holds an index file.
pub open spec fn has_index(dir: NodeView) -> bool {
    index_position(dir.children) < dir.children.len()
}

/// The path of the index file of a directory that holds one.
pub open spec fn index_path(dir: NodeView) -> Seq<char> {
    dir.children[index_position(dir.children) as int].entry.path
}

/// The directory is left out, with all below it.
pub open spec fn is_ignored(dir: NodeView, options: OptionsView) -> bool {
    options.ignore.contains(dir.entry.path)
}

/// The directory counts: its name carries a number, or directories without
/// one are taken in as well.
pub open spec fn is_admitted(dir: NodeView, options: OptionsView) -> bool {
    has_prefix(dir.entry.name) || options.include_unnumbered_directories
}

/// The directory gets a line of its own, and what lies in it is nested one
/// level deeper.
pub open spec fn is_section(dir: NodeView, options: OptionsView) -> bool {
    is_admitted(dir, options) && has_index(dir)
}

/// The files directly inside the directory may be listed.
pub open spec fn lists_content(dir: NodeView, options: OptionsView) -> bool {
    is_admitted(dir, options) && (has_index(dir)
        || options.include_directory_content_without_section)
}

/// `name` ends with `ending`.
pub open spec fn ends_with(name: Seq<char>, ending: Seq<char>) -> bool {
    name.len() >= ending.len() && name.skip(name.len() - ending.len()) == ending
}

/// A file of this name is listed where the content of its directory is: it
/// has the ending of a document, is not the index file, and carries a number.
pub open spec fn is_listed_file(name: Seq<char>) -> bool {
    ends_with(name, extension()) && name != index_name() && has_prefix(name)
}

/// The title of a listed file: its base name without the ending and without
/// a second number, should it carry one, as a title.
pub open spec fn file_title(name: Seq<char>) -> Seq<char> {
    let base_name = decode_spec(name).base_name;
    let stem = base_name.take(base_name.len() - extension().len());
    title_spec(decode_spec(stem).base_name)
}

/// The title of a directory: its base name as a title.
pub open spec fn directory_title(name: Seq<char>) -> Seq<char> {
    title_spec(decode_spec(name).base_name)
}

/// The line of a directory that is a section, if it is one.
pub open spec fn section_lines(dir: NodeView, depth: nat, options: OptionsView) -> Seq<
    OutlineLineView,
> {
    if is_section(dir, options) {
        seq![
            OutlineLineView {
                depth,
                title: directory_title(dir.entry.name),
                target: index_path(dir),
            },
        ]
    } else {
        Seq::empty()
    }
}

/// How deep the lines of what lies inside `dir` are nested, `dir` itself
/// standing at `depth`.
pub open spec fn inner_depth(dir: NodeView, depth: nat, options: OptionsView) -> nat {
    if is_section(dir, options) {
        depth + 1
    } else {
        depth
    }
}

/// The line of a file inside a directory, if it gets one.
pub open spec fn file_lines(file: EntryView, depth: nat, listed: bool) -> Seq<OutlineLineView> {
    if listed && is_listed_file(file.name) {
        seq![OutlineLineView { depth, title: file_title(file.name), target: file.path }]
    } else {
        Seq::empty()
    }
}

/// The lines that a directory and all below it give, the directory standing
/// at `depth`: none if it is ignored; else its own line if it is a section,
/// and then the lines of its children in the order of their names.
pub open spec fn directory_lines(dir: NodeView, depth: nat, options: OptionsView) -> Seq<
    OutlineLineView,
>
    decreases dir, dir.children.len() + 1,
{
    if is_ignored(dir, options) {
        Seq::empty()
    } else {
        section_lines(dir, depth, options) + children_lines(
            dir,
            dir.children.len(),
            inner_depth(dir, depth, options),
            options,
        )
    }
}

/// The lines of the first `upto` children of `dir`, in the order of their
/// names: a directory among them gives its own lines, a file at most one.
pub open spec fn children_lines(dir: NodeView, upto: nat, depth: nat, options: OptionsView) -> Seq<
    OutlineLineView,
>
    decreases dir, upto,
    via children_lines_decreases
{
    if upto == 0 || upto > dir.children.len() {
        Seq::empty()
    } else {
        let child = ordered_children(dir)[upto - 1];
        let lines = match child.entry.kind {
            EntryKind::Directory => directory_lines(child, depth, options),
            EntryKind::File => file_lines(child.entry, depth, lists_content(dir, options)),
        };
        children_lines(dir, (upto - 1) as nat, depth, options) + lines
    }
}

#[via_fn]
proof fn children_lines_decreases(dir: NodeView, upto: nat, depth: nat, options: OptionsView) {
    if !(upto == 0 || upto > dir.children.len()) {
        lemma_ordered_child(dir, upto - 1);
    }
}

/// Each of the ordered children of a directory is one of its children.
pub proof fn lemma_ordered_child(dir: NodeView, k: int)
    requires
        0 <= k < dir.children.len(),
    ensures
        ordered_children(dir).len() == dir.children.len(),
        dir.children.contains(ordered_children(dir)[k]),
        decreases_to!(dir => ordered_children(dir)[k]),
{
    lemma_sorted_by_permutes(dir.children, by_name());
    lemma_sorted_by_item(dir.children, by_name(), k);
    let child = ordered_children(dir)[k];
    let at = choose|at: int| 0 <= at < dir.children.len() && dir.children[at] == child;
    assert(decreases_to!(dir.children => dir.children[at]));
}

/// The outline takes the children of a directory in the order of their
/// names: every child once for each time it is there, and none in front of
/// one whose name comes earlier.
pub proof fn lemma_ordered_children(dir: NodeView)
    ensures
        ordered_children(dir).len() == dir.children.len(),
        ordered_children(dir).to_multiset() == dir.children.to_multiset(),
        ascending(ordered_children(dir), by_name()),
{
    lemma_sorted_by_permutes(dir.children, by_name());
    assert forall|a: NodeView, b: NodeView| #[trigger] by_name()(a, b) || #[trigger] by_name()(
        b,
        a,
    ) by {
        lemma_lex_le_total(a.entry.name, b.entry.name);
    }
    assert forall|a: NodeView, b: NodeView, c: NodeView| #[trigger]
        by_name()(a, b) && #[trigger] by_name()(b, c) implies by_name()(a, c) by {
        lemma_lex_le_transitive(a.entry.name, b.entry.name, c.entry.name);
    }
    lemma_sorted_by_ascending(dir.children, by_name());
}

/// The whole outline of the tree below `root`.
pub open spec fn outline_spec(root: NodeView, options: OptionsView) -> Seq<OutlineLineView> {
    directory_lines(root, 0, options)
}

/// The children of a node stand for the children of what it stands for.
pub proof fn lemma_children_view(node: &Node)
    ensures
        node@.children == views(node.children@),
        node@.entry == node.entry@,
{
    let children = node@.children;
    assert(children.len() == node.children@.len());
    assert forall|i: int| 0 <= i < children.len() implies children[i] == views(
        node.children@,
    )[i] by {
        assert(children[i] == node.children@[i]@);
    }
    assert(children =~= views(node.children@));
}

/// Whether `path` is among the ignored paths.
fn is_ignored_path(options: &Options, path: &String) -> (r: bool)
    ensures
        r == options@.ignore.contains(path@),
{
    let mut i: usize = 0;
    while i < options.ignore.len()
        invariant
            i <= options.ignore.len(),
            forall|j: int| 0 <= j < i ==> options@.ignore[j] != path@,
        decreases options.ignore.len() - i,
    {
        if options.ignore[i] == *path {
            assert(options@.ignore[i as int] == path@);
            return true;
        }
        i += 1;
    }
    false
}

/// The place of the index file among `children`, or their number where
/// there is none.
fn find_index(children: &Vec<Node>) -> (at: usize)
    ensures
        at == index_position(views(children@)),
        at <= children.len(),
{
    let wanted = "README.md".to_owned();
    let ghost all = views(children@);
    let mut at: usize = 0;
    assert(all.skip(0) =~= all);
    while at < children.len() && children[at].entry.name != wanted
        invariant
            at <= children.len(),
            wanted@ == index_name(),
            all == views(children@),
            index_position(all) == at + index_position(all.skip(at as int)),
        decreases children.len() - at,
    {
        proof {
            lemma_children_view(&children[at as int]);
            assert(all.skip(at as int)[0] == children@[at as int]@);
            assert(all.skip(at as int).skip(1) =~= all.skip(at + 1));
        }
        at += 1;
    }
    proof {
        if at < children.len() {
            lemma_children_view(&children[at as int]);
            assert(all.skip(at as int)[0] == children@[at as int]@);
        }
    }
    at
}

/// The places of `children` in the order of their names.
fn name_order(children: &Vec<Node>) -> (order: Vec<usize>)
    ensures
        order@.len() == children@.len(),
        forall|k: int| 0 <= k < order@.len() ==> order@[k] < children@.len(),
        forall|k: int|
            0 <= k < order@.len() ==> children@[order@[k] as int]@ == sorted_by(
                views(children@),
                by_name(),
            )[k],
{
    let ghost all = views(children@);
    let mut order: Vec<usize> = Vec::new();
    let mut names: Vec<Vec<char>> = Vec::new();
    let mut i: usize = 0;
    assert(all.take(0) =~= Seq::<NodeView>::empty());
    while i < children.len()
        invariant
            i <= children.len(),
            all == views(children@),
            order@.len() == i,
            names@.len() == i,
            forall|k: int| 0 <= k < i ==> order@[k] < i,
            forall|k: int| 0 <= k < i ==> names@[k]@ == all[order@[k] as int].entry.name,
            sorted_by(all.take(i as int), by_name()).len() == i,
            forall|k: int|
                0 <= k < i ==> all[order@[k] as int] == sorted_by(all.take(i as int), by_name())[k],
        decreases children.len() - i,
    {
        let name = chars_of(&children[i].entry.name);
        let ghost item = all[i as int];
        let ghost sorted = sorted_by(all.take(i as int), by_name());
        proof {
            lemma_children_view(&children[i as int]);
            assert(item.entry.name == name@);
        }
        let mut at: usize = i;
        while at > 0 && !chars_le(&names[at - 1], &name)
            invariant
                at <= i,
                names@.len() == i,
                sorted.len() == i,
                item.entry.name == name@,
                forall|k: int| 0 <= k < i ==> names@[k]@ == #[trigger] sorted[k].entry.name,
                forall|j: int| at <= j < i ==> !by_name()(sorted[j], item),
            decreases at,
        {
            at -= 1;
        }
        proof {
            lemma_insert_at(sorted, item, by_name(), at as int);
            assert(all.take(i + 1).drop_last() =~= all.take(i as int));
            assert(all.take(i + 1).last() == item);
            assert(sorted_by(all.take(i + 1), by_name()) == sorted.insert(at as int, item));
        }
        order.insert(at, i);
        names.insert(at, name);
        i += 1;
    }
    assert(all.take(children.len() as int) =~= all);
    order
}

/// Whether `name` ends with `ending`.
fn has_ending(name: &Vec<char>, ending: &Vec<char>) -> (r: bool)
    ensures
        r == ends_with(name@, ending@),
{
    if name.len() < ending.len() {
        return false;
    }
    let start = name.len() - ending.len();
    let ghost tail = name@.skip(start as int);
    let mut i: usize = 0;
    while i < ending.len()
        invariant
            i <= ending.len(),
            start + ending.len() == name.len(),
            tail == name@.skip(start as int),
            tail.take(i as int) == ending@.take(i as int),
        decreases ending.len() - i,
    {
        if name[start + i] != ending[i] {
            assert(tail[i as int] != ending@[i as int]);
            return false;
        }
        assert(tail[i as int] == ending@[i as int]);
        i += 1;
        assert(tail.take(i as int) =~= tail.take(i - 1).push(tail[i - 1]));
        assert(ending@.take(i as int) =~= ending@.take(i - 1).push(ending@[i - 1]));
    }
    assert(tail.take(ending.len() as int) =~= tail);
    assert(ending@.take(ending.len() as int) =~= ending@);
    true
}

/// The base name of a numbered name that ends as a document does ends so too.
pub proof fn lemma_base_name_keeps_ending(name: Seq<char>)
    requires
        has_prefix(name),
        ends_with(name, extension()),
    ensures
        decode_spec(name).base_name.len() >= extension().len(),
{
    reveal_strlit(".md");
    lemma_separator_is_underscore(name);
    let at = separator_index(name) as int;
    let tail = name.skip(name.len() - 3);
    if at >= name.len() - 3 {
        assert(tail[at - (name.len() - 3)] == name[at]);
    }
}

/// The line of the file `file` in a directory whose content is listed, if
/// the file gets one.
fn file_line(file: &Entry, depth: usize) -> (line: Option<OutlineLine>)
    ensures
        line is Some <==> is_listed_file(file@.name),
        line matches Some(l) ==> l@ == (OutlineLineView {
            depth: depth as nat,
            title: file_title(file@.name),
            target: file@.path,
        }),
{
    let name = chars_of(&file.name);
    let ending = chars_of(".md");
    if !has_ending(&name, &ending) {
        return None;
    }
    if chars_eq(&name, &chars_of("README.md")) {
        return None;
    }
    match split_number_from_name(&file.name) {
        None => None,
        Some((_, base_name)) => {
            proof {
                lemma_base_name_keeps_ending(file@.name);
            }
            let base = chars_of(&base_name);
            let stem = string_of_range(&base, 0, base.len() - ending.len());
            let title = title_of(&decode(&stem).base_name);
            Some(OutlineLine { depth, title, target: file.path.clone() })
        },
    }
}

/// Adds to `out` the lines of `dir` and of all below it.
fn project_into(dir: &Node, depth: usize, options: &Options, out: &mut Vec<OutlineLine>)
    requires
        depth <= old(out)@.len(),
    ensures
        views(final(out)@) == views(old(out)@) + directory_lines(dir@, depth as nat, options@),
    decreases dir,
{
    broadcast use vstd::std_specs::vec::axiom_vec_index_decreases;

    proof {
        lemma_children_view(dir);
        assert(views(out@) + Seq::<OutlineLineView>::empty() =~= views(out@));
    }
    if is_ignored_path(options, &dir.entry.path) {
        return ;
    }
    let admitted = options.include_unnumbered_directories || split_number_from_name(
        &dir.entry.name,
    ).is_some();
    let at = find_index(&dir.children);
    let indexed = at < dir.children.len();
    let mut inner = depth;
    if admitted && indexed {
        let title = title_of(&decode(&dir.entry.name).base_name);
        proof {
            lemma_children_view(&dir.children[at as int]);
        }
        let line = OutlineLine { depth, title, target: dir.children[at].entry.path.clone() };
        assert(views(out@.push(line)) =~= views(out@) + section_lines(
            dir@,
            depth as nat,
            options@,
        ));
        out.push(line);
        // Each level of nesting has put a line into `out`, so the depth
        // stays below the number of lines and cannot run over.
        let filled = out.len();
        assert(depth < filled);
        inner = depth + 1;
    }
    let listed = admitted && (indexed || options.include_directory_content_without_section);
    let order = name_order(&dir.children);
    let ghost before = views(old(out)@) + section_lines(dir@, depth as nat, options@);
    let mut k: usize = 0;
    assert(views(out@) =~= before + children_lines(dir@, 0, inner as nat, options@));
    while k < order.len()
        invariant
            k <= order.len(),
            order@.len() == dir.children@.len(),
            dir@.children == views(dir.children@),
            forall|j: int| 0 <= j < order@.len() ==> order@[j] < dir.children@.len(),
            forall|j: int|
                0 <= j < order@.len() ==> dir.children@[order@[j] as int]@ == ordered_children(
                    dir@,
                )[j],
            inner <= out@.len(),
            inner == inner_depth(dir@, depth as nat, options@),
            listed == lists_content(dir@, options@),
            views(out@) == before + children_lines(dir@, k as nat, inner as nat, options@),
        decreases order.len() - k,
    {
        let child = &dir.children[order[k]];
        let ghost so_far = views(out@);
        proof {
            lemma_children_view(child);
        }
        match child.entry.kind {
            EntryKind::Directory => {
                project_into(child, inner, options, out);
            },
            EntryKind::File => {
                if listed {
                    match file_line(&child.entry, inner) {
                        Some(line) => {
                            assert(views(out@.push(line)) =~= views(out@).push(line@));
                            out.push(line);
                        },
                        None => {},
                    }
                }
            },
        }
        proof {
            let lines = match child@.entry.kind {
                EntryKind::Directory => directory_lines(child@, inner as nat, options@),
                EntryKind::File => file_lines(child@.entry, inner as nat, listed),
            };
            assert(views(out@) =~= so_far + lines);
            assert(children_lines(dir@, (k + 1) as nat, inner as nat, options@)
                == children_lines(dir@, k as nat, inner as nat, options@) + lines);
            assert(before + (children_lines(dir@, k as nat, inner as nat, options@) + lines)
                =~= so_far + lines);
        }
        k += 1;
    }
    assert(before + children_lines(dir@, order.len() as nat, inner as nat, options@)
        =~= views(old(out)@) + directory_lines(dir@, depth as nat, options@));
}

/// The outline of the tree below `root`: nothing where `root` is ignored;
/// else a line for each directory that is a section and for each listed file,
/// parents in front of what they hold, siblings in the order of their names.
pub fn project(root: &Node, options: &Options) -> (lines: Vec<OutlineLine>)
    ensures
        views(lines@) == outline_spec(root@, options@),
{
    let mut lines: Vec<OutlineLine> = Vec::new();
    project_into(root, 0, options, &mut lines);
    assert(Seq::<OutlineLineView>::empty() + outline_spec(root@, options@) =~= outline_spec(
        root@,
        options@,
    ));
    assert(views(Seq::<OutlineLine>::empty()) =~= Seq::<OutlineLineView>::empty());
    lines
}

/// `count` tabs.
pub open spec fn tabs(count: nat) -> Seq<char> {
    Seq::new(count, |i: int| '\t')
}

/// A line as it is written: a tab for each level of nesting, then the title
/// as a link to the target, in a list item of its own.
pub open spec fn line_text(line: OutlineLineView) -> Seq<char> {
    tabs(line.depth) + "- ["@ + line.title + "]("@ + line.target + ")\n"@
}

/// The lines as they are written, one after the other.
pub open spec fn document_text(lines: Seq<OutlineLineView>) -> Seq<char>
    decreases lines.len(),
{
    if lines.len() == 0 {
        Seq::empty()
    } else {
        document_text(lines.drop_last()) + line_text(lines.last())
    }
}

/// Writes the lines out as text.
pub fn render(lines: &Vec<OutlineLine>) -> (text: String)
    ensures
        text@ == document_text(views(lines@)),
{
    let ghost all = views(lines@);
    let mut text = String::new();
    let mut i: usize = 0;
    assert(all.take(0) =~= Seq::<OutlineLineView>::empty());
    while i < lines.len()
        invariant
            i <= lines.len(),
            all == views(lines@),
            text@ == document_text(all.take(i as int)),
        decreases lines.len() - i,
    {
        let line = &lines[i];
        let ghost before = text@;
        let mut level: usize = 0;
        while level < line.depth
            invariant
                level <= line.depth,
                text@ == before + tabs(level as nat),
            decreases line.depth - level,
        {
            text.push('\t');
            level += 1;
            assert(text@ =~= before + tabs(level as nat));
        }
        text.append("- [");
        text.append(line.title.as_str());
        text.append("](");
        text.append(line.target.as_str());
        text.append(")\n");
        proof {
            assert(all.take(i + 1).drop_last() =~= all.take(i as int));
            assert(all.take(i + 1).last() == line@);
            assert(text@ =~= before + line_text(line@));
        }
        i += 1;
    }
    assert(all.take(lines.len() as int) =~= all);
    text
}

/// The outline of the tree below `root`, as text.
pub fn summary_command(root: &Node, options: &Options) -> (text: String)
    ensures
        text@ == document_text(outline_spec(root@, options@)),
{
    let lines = project(root, options);
    render(&lines)
}

/// The outline is a matter of the tree and the options alone: made twice of
/// the same tree with the same options, it is the same text both times.
pub proof fn lemma_outline_repeats(
    first: Node,
    first_options: Options,
    first_text: String,
    second: Node,
    second_options: Options,
    second_text: String,
)
    requires
        first@ == second@,
        first_options@ == second_options@,
        first_text@ == document_text(outline_spec(first@, first_options@)),
        second_text@ == document_text(outline_spec(second@, second_options@)),
    ensures
        first_text@ == second_text@,
{
}

} // verus!
