//! No space left on device: the sizes of the directories of a disk, worked out
//! from the commands and the listings of a terminal session.

use crate::helpers::parsing::{
    iterate_all, parsed_unsigned, parsed_while, tag, text_u32, views_of, word_at, AocLineParsable,
};
use petgraph::visit::{DfsPostOrder, Visitable};
use petgraph::Direction;
use vstd::prelude::*;
use vstd::string::StringSliceAdditionalSpecFns;

verus! {

/// The `Graph` of `petgraph`: here a directed graph without weights, whose
/// nodes are numbered from zero in the order in which they were added.
#[verifier::external_type_specification]
#[verifier::external_body]
#[verifier::reject_recursive_types(N)]
#[verifier::reject_recursive_types(E)]
#[verifier::reject_recursive_types(Ty)]
#[verifier::reject_recursive_types(Ix)]
pub struct ExGraph<N, E, Ty, Ix>(petgraph::Graph<N, E, Ty, Ix>);

/// The marker of `petgraph` for graphs with directed edges.
#[verifier::external_type_specification]
#[verifier::external_body]
pub struct ExDirected(petgraph::Directed);

/// The number of nodes of a graph.
pub uninterp spec fn node_count_of(graph: petgraph::Graph<(), ()>) -> nat;

/// The edges of a graph, each as its source and its target, in the order in
/// which they were added.
pub uninterp spec fn edges_of(graph: petgraph::Graph<(), ()>) -> Seq<(usize, usize)>;

/// The targets of the edges that leave `node`, the edge added last first.
pub open spec fn targets_from(edges: Seq<(usize, usize)>, node: usize) -> Seq<usize>
    decreases edges.len(),
{
    if edges.len() == 0 {
        Seq::empty()
    } else if edges.last().0 == node {
        seq![edges.last().1] + targets_from(edges.drop_last(), node)
    } else {
        targets_from(edges.drop_last(), node)
    }
}

/// The sources of the edges that enter `node`, the edge added last first.
pub open spec fn sources_into(edges: Seq<(usize, usize)>, node: usize) -> Seq<usize>
    decreases edges.len(),
{
    if edges.len() == 0 {
        Seq::empty()
    } else if edges.last().1 == node {
        seq![edges.last().0] + sources_into(edges.drop_last(), node)
    } else {
        sources_into(edges.drop_last(), node)
    }
}

/// Whether every edge leads from a node to one that was added later.
pub open spec fn edges_ascend(edges: Seq<(usize, usize)>) -> bool {
    forall|i: int| 0 <= i < edges.len() ==> (#[trigger] edges[i]).0 < edges[i].1
}

/// `Graph::new`: a graph without nodes and edges.
#[verifier::external_body]
fn new_graph() -> (graph: petgraph::Graph<(), ()>)
    ensures
        node_count_of(graph) == 0,
        edges_of(graph).len() == 0,
{
    petgraph::Graph::new()
}

/// `Graph::add_node`: adds a node and returns its number, which is the number
/// of nodes that were there.
#[verifier::external_body]
fn add_node(graph: &mut petgraph::Graph<(), ()>) -> (index: usize)
    requires
        node_count_of(*old(graph)) < u32::MAX,
    ensures
        index == node_count_of(*old(graph)),
        node_count_of(*final(graph)) == node_count_of(*old(graph)) + 1,
        edges_of(*final(graph)) == edges_of(*old(graph)),
{
    graph.add_node(()).index()
}

/// `Graph::add_edge`: adds an edge from `a` to `b`.
#[verifier::external_body]
fn add_edge(graph: &mut petgraph::Graph<(), ()>, a: usize, b: usize)
    requires
        a < node_count_of(*old(graph)),
        b < node_count_of(*old(graph)),
        edges_of(*old(graph)).len() < u32::MAX,
    ensures
        edges_of(*final(graph)) == edges_of(*old(graph)).push((a, b)),
        node_count_of(*final(graph)) == node_count_of(*old(graph)),
{
    graph.add_edge(petgraph::graph::NodeIndex::new(a), petgraph::graph::NodeIndex::new(b), ());
}

/// `Graph::neighbors_directed` with `Incoming`: the sources of the edges that
/// enter `node`, the edge added last first.
#[verifier::external_body]
fn incoming(graph: &petgraph::Graph<(), ()>, node: usize) -> (sources: Vec<usize>)
    requires
        node < node_count_of(*graph),
    ensures
        sources@ == sources_into(edges_of(*graph), node),
{
    graph.neighbors_directed(petgraph::graph::NodeIndex::new(node), Direction::Incoming)
        .map(|n| n.index())
        .collect()
}

/// `Graph::neighbors_directed` with `Outgoing`: the targets of the edges that
/// leave `node`, the edge added last first.
#[verifier::external_body]
fn outgoing(graph: &petgraph::Graph<(), ()>, node: usize) -> (targets: Vec<usize>)
    requires
        node < node_count_of(*graph),
    ensures
        targets@ == targets_from(edges_of(*graph), node),
{
    graph.neighbors_directed(petgraph::graph::NodeIndex::new(node), Direction::Outgoing)
        .map(|n| n.index())
        .collect()
}

/// A walk through a graph that visits every node after the nodes that its
/// edges lead to, held as a `DfsPostOrder` of `petgraph`.
#[verifier::external_body]
pub struct PostOrder {
    inner: DfsPostOrder<petgraph::graph::NodeIndex, <petgraph::Graph<(), ()> as Visitable>::Map>,
}

/// The nodes that a walk has visited.
pub uninterp spec fn finished_of(walk: PostOrder) -> Set<usize>;

/// The edges of the graph that a walk was started on.
pub uninterp spec fn walked_edges_of(walk: PostOrder) -> Seq<(usize, usize)>;

/// The node that a walk was started at.
pub uninterp spec fn start_of(walk: PostOrder) -> usize;

impl PostOrder {
    /// `DfsPostOrder::new`: a walk that starts at `start` and has visited
    /// nothing yet.
    #[verifier::external_body]
    fn new(graph: &petgraph::Graph<(), ()>, start: usize) -> (walk: PostOrder)
        requires
            start < node_count_of(*graph),
        ensures
            finished_of(walk) == Set::<usize>::empty(),
            walked_edges_of(walk) == edges_of(*graph),
            start_of(walk) == start,
    {
        PostOrder { inner: DfsPostOrder::new(graph, petgraph::graph::NodeIndex::new(start)) }
    }

    /// `DfsPostOrder::next` on a graph whose edges lead to later nodes: the
    /// next node of the walk, which it has not visited before, and to which no
    /// edge leads from a node that it has not visited yet; or `None` once it has
    /// visited the node it started at and every node that an edge leads to from
    /// a node that it has visited.
    #[verifier::external_body]
    fn next(&mut self, graph: &petgraph::Graph<(), ()>) -> (node: Option<usize>)
        requires
            edges_of(*graph) == walked_edges_of(*old(self)),
            edges_ascend(edges_of(*graph)),
            start_of(*old(self)) < node_count_of(*graph),
        ensures
            walked_edges_of(*final(self)) == walked_edges_of(*old(self)),
            start_of(*final(self)) == start_of(*old(self)),
            match node {
                Some(node) => {
                    &&& node < node_count_of(*graph)
                    &&& !finished_of(*old(self)).contains(node)
                    &&& finished_of(*final(self)) == finished_of(*old(self)).insert(node)
                    &&& forall|i: int|
                        0 <= i < edges_of(*graph).len() && (#[trigger] edges_of(*graph)[i]).0
                            == node ==> finished_of(*old(self)).contains(edges_of(*graph)[i].1)
                },
                None => {
                    &&& finished_of(*final(self)) == finished_of(*old(self))
                    &&& finished_of(*final(self)).contains(start_of(*old(self)))
                    &&& forall|i: int|
                        0 <= i < edges_of(*graph).len() && finished_of(*final(self)).contains(
                            (#[trigger] edges_of(*graph)[i]).0,
                        ) ==> finished_of(*final(self)).contains(edges_of(*graph)[i].1)
                },
            },
    {
        self.inner.next(graph).map(|n| n.index())
    }
}

/// Where the rest of the line ends that starts at offset `from`: in front of
/// a line feed, of a carriage return with a line feed, or at the end of the
/// input. Nothing where a carriage return stands without a line feed.
pub open spec fn rest_of_line(input: Seq<u8>, from: int) -> Option<int>
    decreases input.len() - from,
{
    if from < 0 || from >= input.len() {
        Some(from)
    } else if input[from] == 10 {
        Some(from)
    } else if input[from] == 13 {
        if from + 1 < input.len() && input[from + 1] == 10 {
            Some(from)
        } else {
            None
        }
    } else {
        rest_of_line(input, from + 1)
    }
}

/// Reads to the end of the line and returns where it ends.
fn not_line_ending(input: &[u8], from: usize) -> (end: Option<usize>)
    requires
        from <= input@.len(),
    ensures
        match end {
            Some(end) => rest_of_line(input@, from as int) == Some(end as int) && from <= end
                <= input@.len(),
            None => rest_of_line(input@, from as int) is None,
        },
{
    let mut end = from;
    loop
        invariant
            from <= end <= input@.len(),
            rest_of_line(input@, from as int) == rest_of_line(input@, end as int),
        decreases input@.len() - end,
    {
        if end >= input.len() || input[end] == 10 {
            return Some(end);
        }
        if input[end] == 13 {
            if input.len() - end >= 2 && input[end + 1] == 10 {
                return Some(end);
            } else {
                return None;
            }
        }
        end += 1;
    }
}

/// An entry of a listing: a directory, or a file with its size.
#[derive(Debug, Clone, Copy, PartialEq, Eq)]
pub struct File {
    pub is_directory: bool,
    pub size: Option<u32>,
}

/// Where to go in the tree of directories.
#[derive(Debug, Clone, PartialEq, Eq)]
pub enum ChangeDirCommand {
    Root,
    Down { directory: Vec<u8> },
    Up,
}

/// A command of the session.
#[derive(Debug, Clone, PartialEq, Eq)]
pub enum Command {
    ChangeDir(ChangeDirCommand),
    List,
}

/// A line of the session: a command, or an entry of a listing.
#[derive(Debug, Clone, PartialEq, Eq)]
pub enum InputLine {
    Command(Command),
    File(File),
}

/// What a line of the session says.
pub enum LineView {
    ToRoot,
    Down(Seq<u8>),
    Up,
    List,
    Entry(File),
}

impl View for InputLine {
    type V = LineView;

    open spec fn view(&self) -> LineView {
        match self {
            InputLine::Command(Command::ChangeDir(ChangeDirCommand::Root)) => LineView::ToRoot,
            InputLine::Command(Command::ChangeDir(ChangeDirCommand::Down { directory })) => {
                LineView::Down(directory@)
            },
            InputLine::Command(Command::ChangeDir(ChangeDirCommand::Up)) => LineView::Up,
            InputLine::Command(Command::List) => LineView::List,
            InputLine::File(file) => LineView::Entry(*file),
        }
    }
}

/// The entry of a listing at offset `from`, and the offset behind it: the
/// word `dir` and a name, or a size and a name.
pub open spec fn file_at(input: Seq<u8>, from: int) -> Option<(File, int)> {
    match word_at(input, from, "dir ".spec_bytes()) {
        Some(name_from) => match rest_of_line(input, name_from) {
            Some(to) => Some((File { is_directory: true, size: None }, to)),
            None => sized_file_at(input, from),
        },
        None => sized_file_at(input, from),
    }
}

/// The file with its size at offset `from`, and the offset behind it.
pub open spec fn sized_file_at(input: Seq<u8>, from: int) -> Option<(File, int)> {
    match parsed_unsigned(input, from, u32::MAX as nat) {
        Some((size, behind)) => match word_at(input, behind, " ".spec_bytes()) {
            Some(name_from) => match rest_of_line(input, name_from) {
                Some(to) => Some((File { is_directory: false, size: Some(size as u32) }, to)),
                None => None,
            },
            None => None,
        },
        None => None,
    }
}

/// The command at offset `from`, and the offset behind it: a dollar sign, and
/// then `cd` with where to go, or `ls`.
pub open spec fn command_at(input: Seq<u8>, from: int) -> Option<(LineView, int)> {
    match word_at(input, from, "$ ".spec_bytes()) {
        Some(word_from) => match word_at(input, word_from, "cd ".spec_bytes()) {
            Some(name_from) => match rest_of_line(input, name_from) {
                Some(to) => Some((change_dir_to(input.subrange(name_from, to)), to)),
                None => list_at(input, word_from),
            },
            None => list_at(input, word_from),
        },
        None => None,
    }
}

/// Where the argument of `cd` leads.
pub open spec fn change_dir_to(name: Seq<u8>) -> LineView {
    if name == "/".spec_bytes() {
        LineView::ToRoot
    } else if name == "..".spec_bytes() {
        LineView::Up
    } else {
        LineView::Down(name)
    }
}

/// The command `ls` at offset `from`.
pub open spec fn list_at(input: Seq<u8>, from: int) -> Option<(LineView, int)> {
    match word_at(input, from, "ls".spec_bytes()) {
        Some(to) => Some((LineView::List, to)),
        None => None,
    }
}

/// The line of the session at offset `from`, without its end, and the offset
/// behind it.
pub open spec fn input_line_at(input: Seq<u8>, from: int) -> Option<(LineView, int)> {
    match command_at(input, from) {
        Some(read) => Some(read),
        None => match file_at(input, from) {
            Some((file, to)) => Some((LineView::Entry(file), to)),
            None => None,
        },
    }
}

/// Copies a part of the input.
fn copy_of(input: &[u8], from: usize, to: usize) -> (copy: Vec<u8>)
    requires
        from <= to <= input@.len(),
    ensures
        copy@ == input@.subrange(from as int, to as int),
{
    let mut copy: Vec<u8> = Vec::new();
    let mut at = from;
    while at < to
        invariant
            from <= at <= to <= input@.len(),
            copy@ == input@.subrange(from as int, at as int),
        decreases to - at,
    {
        copy.push(input[at]);
        at += 1;
        proof {
            assert(copy@ =~= input@.subrange(from as int, at as int));
        }
    }
    copy
}

/// Whether a part of the input is the given word.
fn is_word(input: &[u8], from: usize, to: usize, word: &[u8]) -> (same: bool)
    requires
        from <= to <= input@.len(),
    ensures
        same == (input@.subrange(from as int, to as int) == word@),
{
    if to - from != word.len() {
        return false;
    }
    match tag(input, from, word) {
        Some(behind) => true,
        None => false,
    }
}

impl File {
    /// Reads an entry of a listing.
    pub fn parse(input: &[u8], from: usize) -> (read: Option<(File, usize)>)
        requires
            from <= input@.len(),
        ensures
            match read {
                Some((file, to)) => file_at(input@, from as int) == Some((file, to as int))
                    && from <= to <= input@.len(),
                None => file_at(input@, from as int) is None,
            },
    {
        if let Some(name_from) = tag(input, from, "dir ".as_bytes()) {
            if let Some(to) = not_line_ending(input, name_from) {
                return Some((File { is_directory: true, size: None }, to));
            }
        }
        let (size, behind) = match text_u32(input, from) {
            Some(read) => read,
            None => {
                return None;
            },
        };
        let name_from = match tag(input, behind, " ".as_bytes()) {
            Some(to) => to,
            None => {
                return None;
            },
        };
        match not_line_ending(input, name_from) {
            Some(to) => Some((File { is_directory: false, size: Some(size) }, to)),
            None => None,
        }
    }
}

impl Command {
    /// Reads a command.
    pub fn parse(input: &[u8], from: usize) -> (read: Option<(Command, usize)>)
        requires
            from <= input@.len(),
        ensures
            match read {
                Some((command, to)) => command_at(input@, from as int) == Some(
                    (InputLine::Command(command)@, to as int),
                ) && from <= to <= input@.len(),
                None => command_at(input@, from as int) is None,
            },
    {
        let word_from = match tag(input, from, "$ ".as_bytes()) {
            Some(to) => to,
            None => {
                return None;
            },
        };
        if let Some(name_from) = tag(input, word_from, "cd ".as_bytes()) {
            if let Some(to) = not_line_ending(input, name_from) {
                let command = if is_word(input, name_from, to, "/".as_bytes()) {
                    ChangeDirCommand::Root
                } else if is_word(input, name_from, to, "..".as_bytes()) {
                    ChangeDirCommand::Up
                } else {
                    ChangeDirCommand::Down { directory: copy_of(input, name_from, to) }
                };
                return Some((Command::ChangeDir(command), to));
            }
        }
        match tag(input, word_from, "ls".as_bytes()) {
            Some(to) => Some((Command::List, to)),
            None => None,
        }
    }
}

impl InputLine {
    /// Reads a line of the session, without its end.
    pub fn parse(input: &[u8], from: usize) -> (read: Option<(InputLine, usize)>)
        requires
            from <= input@.len(),
        ensures
            match read {
                Some((line, to)) => input_line_at(input@, from as int) == Some((line@, to as int))
                    && from <= to <= input@.len(),
                None => input_line_at(input@, from as int) is None,
            },
    {
        if let Some((command, to)) = Command::parse(input, from) {
            return Some((InputLine::Command(command), to));
        }
        match File::parse(input, from) {
            Some((file, to)) => Some((InputLine::File(file), to)),
            None => None,
        }
    }
}

impl AocLineParsable for InputLine {
    open spec fn parsed_line(input: Seq<u8>, from: int) -> Option<(LineView, int)> {
        input_line_at(input, from)
    }

    fn parse_from_line(input: &[u8], from: usize) -> (read: Option<(Self, usize)>) {
        InputLine::parse(input, from)
    }
}

/// A directory: its name, the files listed in it, and its size once that has
/// been worked out.
#[derive(Debug)]
pub struct DirectoryNode {
    pub name: Vec<u8>,
    pub files: Vec<File>,
    pub size: Option<usize>,
}

impl DirectoryNode {
    /// The root directory, without files.
    pub fn new_root() -> (root: Self)
        ensures
            root.name@ == "/".spec_bytes(),
            root.files@.len() == 0,
            root.size is None,
    {
        let word = "/".as_bytes();
        let name = copy_of(word, 0, word.len());
        proof {
            assert(name@ =~= word@);
        }
        DirectoryNode { name, files: Vec::new(), size: None }
    }
}

/// The tree of the directories of a disk.
pub struct DirectoryTree {
    graph: petgraph::Graph<(), ()>,
    dirs: Vec<DirectoryNode>,
}

/// What is known of a disk: for each directory its name, its files and its
/// size, and the edges that lead from a directory to the directories in it.
pub struct DiskView {
    pub names: Seq<Seq<u8>>,
    pub files: Seq<Seq<File>>,
    pub sizes: Seq<Option<usize>>,
    pub edges: Seq<(usize, usize)>,
}

impl View for DirectoryTree {
    type V = DiskView;

    closed spec fn view(&self) -> DiskView {
        DiskView {
            names: Seq::new(self.dirs@.len(), |i: int| self.dirs@[i].name@),
            files: Seq::new(self.dirs@.len(), |i: int| self.dirs@[i].files@),
            sizes: Seq::new(self.dirs@.len(), |i: int| self.dirs@[i].size),
            edges: edges_of(self.graph),
        }
    }
}

/// Whether the disk is a tree below its first directory: every edge leads
/// from a directory to one that was added later, and into every directory but
/// the first leads an edge; there are no more edges than that.
pub open spec fn disk_wf(disk: DiskView) -> bool {
    &&& disk.names.len() >= 1
    &&& disk.names.len() <= u32::MAX
    &&& disk.edges.len() + 1 == disk.names.len()
    &&& disk.files.len() == disk.names.len()
    &&& disk.sizes.len() == disk.names.len()
    &&& edges_ascend(disk.edges)
    &&& forall|i: int| 0 <= i < disk.edges.len() ==> (#[trigger] disk.edges[i]).1 < disk.names.len()
    &&& forall|node: int| 1 <= node < disk.names.len() ==> #[trigger] has_parent(disk.edges, node)
}

/// Whether an edge leads into `node`.
pub open spec fn has_parent(edges: Seq<(usize, usize)>, node: int) -> bool {
    exists|i: int| 0 <= i < edges.len() && (#[trigger] edges[i]).1 == node
}

/// The first of the directories `among` that has the name `name`.
pub open spec fn first_named(names: Seq<Seq<u8>>, among: Seq<usize>, name: Seq<u8>) -> Option<
    usize,
>
    decreases among.len(),
{
    if among.len() == 0 {
        None
    } else if names[among[0] as int] == name {
        Some(among[0])
    } else {
        first_named(names, among.drop_first(), name)
    }
}

/// The disk and the current directory after a line of the session. Nothing
/// where the line asks to go up from the first directory, to go to the root
/// from below it, or for more directories than can be numbered.
pub open spec fn after_line(disk: DiskView, current: usize, line: LineView) -> Option<
    (DiskView, usize),
> {
    match line {
        LineView::Entry(file) => if file.is_directory {
            Some((disk, current))
        } else {
            Some(
                (
                    DiskView {
                        files: disk.files.update(
                            current as int,
                            disk.files[current as int].push(file),
                        ),
                        ..disk
                    },
                    current,
                ),
            )
        },
        LineView::List => Some((disk, current)),
        LineView::Up => if sources_into(disk.edges, current).len() == 0 {
            None
        } else {
            Some((disk, sources_into(disk.edges, current)[0]))
        },
        LineView::ToRoot => if sources_into(disk.edges, current).len() == 0 {
            Some((disk, current))
        } else {
            None
        },
        LineView::Down(name) => match first_named(
            disk.names,
            targets_from(disk.edges, current),
            name,
        ) {
            Some(child) => Some((disk, child)),
            None => if disk.names.len() < u32::MAX {
                Some(
                    (
                        DiskView {
                            names: disk.names.push(name),
                            files: disk.files.push(Seq::empty()),
                            sizes: disk.sizes.push(None),
                            edges: disk.edges.push((current, disk.names.len() as usize)),
                        },
                        disk.names.len() as usize,
                    ),
                )
            } else {
                None
            },
        },
    }
}

/// The sources of the edges into a node are nodes that were added earlier.
proof fn lemma_sources(edges: Seq<(usize, usize)>, node: usize)
    requires
        edges_ascend(edges),
    ensures
        forall|i: int|
            0 <= i < sources_into(edges, node).len() ==> #[trigger] sources_into(edges, node)[i]
                < node,
    decreases edges.len(),
{
    if edges.len() > 0 {
        lemma_sources(edges.drop_last(), node);
        assert(edges.last() == edges[edges.len() - 1]);
        let all = sources_into(edges, node);
        let rest = sources_into(edges.drop_last(), node);
        assert forall|i: int| 0 <= i < all.len() implies #[trigger] all[i] < node by {
            if edges.last().1 == node {
                if i > 0 {
                    assert(all[i] == rest[i - 1]);
                }
            }
        }
    }
}

/// The targets of the edges from a node are targets of edges.
proof fn lemma_targets(edges: Seq<(usize, usize)>, node: usize, bound: int)
    requires
        forall|i: int| 0 <= i < edges.len() ==> (#[trigger] edges[i]).1 < bound,
    ensures
        forall|i: int|
            0 <= i < targets_from(edges, node).len() ==> #[trigger] targets_from(edges, node)[i]
                < bound,
    decreases edges.len(),
{
    if edges.len() > 0 {
        lemma_targets(edges.drop_last(), node, bound);
        assert(edges.last() == edges[edges.len() - 1]);
        let all = targets_from(edges, node);
        let rest = targets_from(edges.drop_last(), node);
        assert forall|i: int| 0 <= i < all.len() implies #[trigger] all[i] < bound by {
            if edges.last().0 == node {
                if i > 0 {
                    assert(all[i] == rest[i - 1]);
                }
            }
        }
    }
}

/// Whether two names are the same.
fn same_name(a: &Vec<u8>, b: &Vec<u8>) -> (same: bool)
    ensures
        same == (a@ == b@),
{
    if a.len() != b.len() {
        return false;
    }
    let mut i: usize = 0;
    while i < a.len()
        invariant
            i <= a@.len(),
            a@.len() == b@.len(),
            forall|j: int| 0 <= j < i ==> a@[j] == b@[j],
        decreases a@.len() - i,
    {
        if a[i] != b[i] {
            return false;
        }
        i += 1;
    }
    proof {
        assert(a@ =~= b@);
    }
    true
}

impl DirectoryTree {
    /// The invariant of the tree: the graph has a node for every directory, and
    /// the disk is a tree.
    pub closed spec fn wf(&self) -> bool {
        &&& node_count_of(self.graph) == self.dirs@.len()
        &&& disk_wf(self@)
    }

    /// The number of directories.
    pub closed spec fn count(&self) -> nat {
        self.dirs@.len()
    }

    /// The tree that holds the root directory alone.
    pub fn new() -> (made: (DirectoryTree, usize))
        ensures
            made.0.wf(),
            made.1 == 0,
            made.0@ == (DiskView {
                names: seq!["/".spec_bytes()],
                files: seq![Seq::<File>::empty()],
                sizes: seq![None::<usize>],
                edges: Seq::<(usize, usize)>::empty(),
            }),
    {
        let mut graph = new_graph();
        let root_node_index = add_node(&mut graph);
        let mut dirs: Vec<DirectoryNode> = Vec::new();
        dirs.push(DirectoryNode::new_root());
        let tree = DirectoryTree { graph, dirs };
        proof {
            assert(tree@.names =~= seq!["/".spec_bytes()]);
            assert(tree@.files[0] =~= Seq::<File>::empty());
            assert(tree@.files =~= seq![Seq::<File>::empty()]);
            assert(tree@.sizes =~= seq![None::<usize>]);
            assert(tree@.edges =~= Seq::<(usize, usize)>::empty());
        }
        (tree, root_node_index)
    }

    /// The directories, for reading.
    pub fn dirs(&self) -> (dirs: &Vec<DirectoryNode>)
        ensures
            dirs@.len() == self@.names.len(),
            forall|i: int|
                0 <= i < dirs@.len() ==> {
                    &&& (#[trigger] dirs@[i]).name@ == self@.names[i]
                    &&& dirs@[i].files@ == self@.files[i]
                    &&& dirs@[i].size == self@.sizes[i]
                },
    {
        &self.dirs
    }
}

/// Goes where a command asks, from the directory `current_dir`, and returns
/// the directory reached. A directory that is entered for the first time is
/// added to the tree. `None` where there is nowhere to go.
pub fn change_dir(
    graph: &mut DirectoryTree,
    current_dir: usize,
    command: ChangeDirCommand,
) -> (reached: Option<usize>)
    requires
        old(graph).wf(),
        current_dir < old(graph)@.names.len(),
    ensures
        final(graph).wf(),
        match after_line(
            old(graph)@,
            current_dir,
            InputLine::Command(Command::ChangeDir(command))@,
        ) {
            Some((disk, current)) => reached == Some(current) && final(graph)@ == disk && current
                < disk.names.len(),
            None => reached is None && final(graph)@ == old(graph)@,
        },
{
    match command {
        ChangeDirCommand::Up => {
            let parents = incoming(&graph.graph, current_dir);
            proof {
                lemma_sources(graph@.edges, current_dir);
            }
            if parents.len() == 0 {
                None
            } else {
                Some(parents[0])
            }
        },
        ChangeDirCommand::Root => {
            let parents = incoming(&graph.graph, current_dir);
            if parents.len() == 0 {
                Some(current_dir)
            } else {
                None
            }
        },
        ChangeDirCommand::Down { directory } => {
            // Check if the directory already exists
            let children = outgoing(&graph.graph, current_dir);
            proof {
                lemma_targets(graph@.edges, current_dir, graph@.names.len() as int);
            }
            let mut at: usize = 0;
            proof {
                assert(children@.skip(0) =~= children@);
            }
            while at < children.len()
                invariant
                    at <= children@.len(),
                    current_dir < graph@.names.len(),
                    InputLine::Command(Command::ChangeDir(command))@ == LineView::Down(directory@),
                    graph.wf(),
                    *graph == *old(graph),
                    children@ == targets_from(graph@.edges, current_dir),
                    forall|i: int|
                        0 <= i < children@.len() ==> #[trigger] children@[i] < graph@.names.len(),
                    first_named(graph@.names, children@, directory@) == first_named(
                        graph@.names,
                        children@.skip(at as int),
                        directory@,
                    ),
                decreases children@.len() - at,
            {
                let child = children[at];
                proof {
                    assert(children@.skip(at as int)[0] == child);
                    assert(children@.skip(at as int).drop_first() =~= children@.skip(at + 1));
                }
                if same_name(&graph.dirs[child].name, &directory) {
                    proof {
                        assert(graph@.names[child as int] == directory@);
                        assert(first_named(graph@.names, children@.skip(at as int), directory@)
                            == Some(child));
                    }
                    return Some(child);
                }
                proof {
                    assert(graph@.names[child as int] != directory@);
                }
                at += 1;
            }
            proof {
                assert(children@.skip(children@.len() as int) =~= Seq::<usize>::empty());
            }
            if graph.dirs.len() >= u32::MAX as usize {
                return None;
            }
            let new_dir_index = add_node(&mut graph.graph);
            graph.dirs.push(DirectoryNode { name: directory, files: Vec::new(), size: None });
            add_edge(&mut graph.graph, current_dir, new_dir_index);
            proof {
                let before = old(graph)@;
                let target = DiskView {
                    names: before.names.push(directory@),
                    files: before.files.push(Seq::empty()),
                    sizes: before.sizes.push(None),
                    edges: before.edges.push((current_dir, before.names.len() as usize)),
                };
                assert(graph@.names =~= target.names);
                assert(graph@.files =~= target.files);
                assert(graph@.sizes =~= target.sizes);
                assert(graph@.edges =~= target.edges);
                assert forall|node: int| 1 <= node < target.names.len() implies #[trigger] has_parent(
                    target.edges,
                    node,
                ) by {
                    if node < before.names.len() {
                        assert(has_parent(before.edges, node));
                        let i = choose|i: int|
                            0 <= i < before.edges.len() && (#[trigger] before.edges[i]).1 == node;
                        assert(target.edges[i] == before.edges[i]);
                    } else {
                        assert(target.edges[before.edges.len() as int].1 == node);
                    }
                }
            }
            Some(new_dir_index)
        },
    }
}

/// The disk with its root directory alone.
pub open spec fn empty_disk() -> DiskView {
    DiskView {
        names: seq!["/".spec_bytes()],
        files: seq![Seq::<File>::empty()],
        sizes: seq![None::<usize>],
        edges: Seq::<(usize, usize)>::empty(),
    }
}

/// The disk and the current directory after the first `count` lines of a
/// session that starts at the root of an empty disk.
pub open spec fn disk_after(lines: Seq<LineView>, count: int) -> Option<(DiskView, usize)>
    decreases count,
{
    if count <= 0 {
        Some((empty_disk(), 0usize))
    } else {
        match disk_after(lines, count - 1) {
            Some((disk, current)) => after_line(disk, current, lines[count - 1]),
            None => None,
        }
    }
}

/// Once a line cannot be followed, the session stays undone.
proof fn lemma_later_lines(lines: Seq<LineView>, failed: int, count: int)
    requires
        0 < failed <= count,
        disk_after(lines, failed) is None,
    ensures
        disk_after(lines, count) is None,
    decreases count,
{
    if count > failed {
        lemma_later_lines(lines, failed, count - 1);
    }
}

impl DirectoryTree {
    /// Adds a file to the directory `dir`.
    fn add_file(&mut self, dir: usize, file: File)
        requires
            old(self).wf(),
            dir < old(self)@.names.len(),
        ensures
            final(self).wf(),
            final(self)@ == (DiskView {
                files: old(self)@.files.update(dir as int, old(self)@.files[dir as int].push(file)),
                ..old(self)@
            }),
    {
        self.dirs[dir].files.push(file);
        proof {
            let before = old(self)@;
            let target = DiskView {
                files: before.files.update(dir as int, before.files[dir as int].push(file)),
                ..before
            };
            assert(self@.names =~= target.names);
            assert(self@.sizes =~= target.sizes);
            assert forall|i: int| 0 <= i < target.files.len() implies #[trigger] self@.files[i]
                == target.files[i] by {
                if i != dir {
                    assert(self.dirs@[i] == old(self).dirs@[i]);
                }
            }
            assert(self@.files =~= target.files);
        }
    }
}

/// Copies a name.
fn copy_name(name: &Vec<u8>) -> (copy: Vec<u8>)
    ensures
        copy@ == name@,
{
    let copy = copy_of(name.as_slice(), 0, name.len());
    proof {
        assert(copy@ =~= name@);
    }
    copy
}

/// Follows the session and builds the tree of the directories that it visits.
/// Returns the tree and its root directory. `None` where a command of the
/// session cannot be followed.
pub fn parse_from_command_input(input: &[u8]) -> (built: Option<(DirectoryTree, usize)>)
    ensures
        match (
            disk_after(
                parsed_while::<InputLine>(input@, 0),
                parsed_while::<InputLine>(input@, 0).len() as int,
            ),
            built,
        ) {
            (Some((disk, current)), Some((tree, root))) => tree.wf() && tree@ == disk && root == 0,
            (None, None) => true,
            _ => false,
        },
{
    let (mut graph, root_node_index) = DirectoryTree::new();
    let mut current_node_index = root_node_index;
    let input_lines: Vec<InputLine> = iterate_all(input);
    let ghost lines = parsed_while::<InputLine>(input@, 0);
    let mut index: usize = 0;
    while index < input_lines.len()
        invariant
            index <= input_lines@.len(),
            lines == views_of(input_lines@),
            lines == parsed_while::<InputLine>(input@, 0),
            root_node_index == 0,
            graph.wf(),
            current_node_index < graph@.names.len(),
            disk_after(lines, index as int) == Some((graph@, current_node_index)),
        decreases input_lines@.len() - index,
    {
        proof {
            assert(lines[index as int] == input_lines@[index as int]@);
        }
        match &input_lines[index] {
            InputLine::File(file) => {
                if !file.is_directory {
                    graph.add_file(current_node_index, *file);
                }
            },
            InputLine::Command(Command::ChangeDir(change_dir_command)) => {
                let command = match change_dir_command {
                    ChangeDirCommand::Root => ChangeDirCommand::Root,
                    ChangeDirCommand::Up => ChangeDirCommand::Up,
                    ChangeDirCommand::Down { directory } => ChangeDirCommand::Down {
                        directory: copy_name(directory),
                    },
                };
                proof {
                    assert(InputLine::Command(Command::ChangeDir(command))@ == lines[index as int]);
                }
                match change_dir(&mut graph, current_node_index, command) {
                    Some(reached) => {
                        current_node_index = reached;
                    },
                    None => {
                        proof {
                            assert(disk_after(lines, index + 1) is None);
                            lemma_later_lines(lines, index + 1, lines.len() as int);
                        }
                        return None;
                    },
                }
            },
            InputLine::Command(Command::List) => {},
        }
        index += 1;
    }
    Some((graph, root_node_index))
}

/// The size of a file; nothing for an entry without a size.
pub open spec fn size_of(file: File) -> int {
    match file.size {
        Some(size) => size as int,
        None => 0,
    }
}

/// The sizes of the first `count` files, added up.
pub open spec fn files_size(files: Seq<File>, count: int) -> int
    decreases count,
{
    if count <= 0 {
        0
    } else {
        files_size(files, count - 1) + size_of(files[count - 1])
    }
}

/// The size of a directory: the sizes of its files and of the directories in
/// it.
pub open spec fn dir_size(disk: DiskView, node: int) -> int
    decreases disk.names.len() - node, disk.edges.len() + 1,
{
    if node < 0 || node >= disk.names.len() {
        0
    } else {
        files_size(disk.files[node], disk.files[node].len() as int) + children_size(
            disk,
            node,
            disk.edges.len() as int,
        )
    }
}

/// The sizes of the directories to which the first `count` edges lead from
/// `node`, added up.
pub open spec fn children_size(disk: DiskView, node: int, count: int) -> int
    decreases disk.names.len() - node, count,
{
    if count <= 0 || count > disk.edges.len() || node < 0 || node >= disk.names.len() {
        0
    } else {
        children_size(disk, node, count - 1) + if disk.edges[count - 1].0 == node && node
            < disk.edges[count - 1].1 < disk.names.len() {
            dir_size(disk, disk.edges[count - 1].1 as int)
        } else {
            0
        }
    }
}

/// The sizes of the directories `targets`, added up.
pub open spec fn sizes_of(disk: DiskView, targets: Seq<usize>) -> int
    decreases targets.len(),
{
    if targets.len() == 0 {
        0
    } else {
        dir_size(disk, targets[0] as int) + sizes_of(disk, targets.drop_first())
    }
}

/// No sum of sizes of directories is negative.
proof fn lemma_children_nonneg(disk: DiskView, node: int, count: int)
    requires
        disk.files.len() == disk.names.len(),
    ensures
        0 <= children_size(disk, node, count),
    decreases disk.names.len() - node, count,
{
    if !(count <= 0 || count > disk.edges.len() || node < 0 || node >= disk.names.len()) {
        lemma_children_nonneg(disk, node, count - 1);
        let edge = disk.edges[count - 1];
        if edge.0 == node && node < edge.1 < disk.names.len() {
            lemma_dir_nonneg(disk, edge.1 as int);
        }
    }
}

/// No size of a directory is negative.
proof fn lemma_dir_nonneg(disk: DiskView, node: int)
    requires
        disk.files.len() == disk.names.len(),
    ensures
        0 <= dir_size(disk, node),
    decreases disk.names.len() - node, disk.edges.len() + 1,
{
    if 0 <= node < disk.names.len() {
        lemma_files_size(disk.files[node], 0, disk.files[node].len() as int);
        lemma_children_nonneg(disk, node, disk.edges.len() as int);
    }
}

/// More files add up to no less.
proof fn lemma_files_size(files: Seq<File>, fewer: int, count: int)
    requires
        0 <= fewer <= count,
    ensures
        0 <= files_size(files, fewer) <= files_size(files, count),
    decreases count,
{
    if count > 0 {
        if fewer < count {
            lemma_files_size(files, fewer, count - 1);
        } else {
            lemma_files_size(files, fewer - 1, count - 1);
        }
    }
}

/// The directories in a directory are those to which its edges lead: their
/// sizes add up to the same.
proof fn lemma_children_are_targets(disk: DiskView, node: int, count: int)
    requires
        0 <= node < disk.names.len() <= usize::MAX,
        0 <= count <= disk.edges.len(),
        edges_ascend(disk.edges),
        forall|i: int| 0 <= i < disk.edges.len() ==> (#[trigger] disk.edges[i]).1 < disk.names.len(),
    ensures
        children_size(disk, node, count) == sizes_of(
            disk,
            targets_from(disk.edges.take(count), node as usize),
        ),
    decreases count,
{
    if count > 0 {
        lemma_children_are_targets(disk, node, count - 1);
        let edges = disk.edges.take(count);
        let edge = disk.edges[count - 1];
        assert(edges.drop_last() =~= disk.edges.take(count - 1));
        assert(edges.last() == edge);
        assert(edge.0 < edge.1 < disk.names.len());
        let targets = targets_from(edges, node as usize);
        let rest = targets_from(edges.drop_last(), node as usize);
        if edge.0 == node as usize {
            assert(targets =~= seq![edge.1] + rest);
            assert(targets[0] == edge.1);
            assert(targets.drop_first() =~= rest);
            assert(sizes_of(disk, targets) == dir_size(disk, edge.1 as int) + sizes_of(disk, rest));
        } else {
            assert(targets == rest);
        }
    } else {
        assert(disk.edges.take(0).len() == 0);
    }
}

/// The sizes of the first directories of a list do not add up to more than
/// those of all.
proof fn lemma_sizes_of_prefix(disk: DiskView, targets: Seq<usize>, fewer: int)
    requires
        disk.files.len() == disk.names.len(),
        0 <= fewer <= targets.len(),
    ensures
        0 <= sizes_of(disk, targets.take(fewer)) <= sizes_of(disk, targets),
        fewer < targets.len() ==> sizes_of(disk, targets.take(fewer + 1)) == sizes_of(
            disk,
            targets.take(fewer),
        ) + dir_size(disk, targets[fewer] as int),
    decreases targets.len(),
{
    if targets.len() > 0 {
        lemma_dir_nonneg(disk, targets[0] as int);
        if fewer > 0 {
            lemma_sizes_of_prefix(disk, targets.drop_first(), fewer - 1);
            assert(targets.take(fewer).drop_first() =~= targets.drop_first().take(fewer - 1));
            if fewer < targets.len() {
                assert(targets.take(fewer + 1).drop_first() =~= targets.drop_first().take(fewer));
            }
        } else {
            lemma_sizes_of_prefix(disk, targets.drop_first(), 0);
            assert(targets.take(0) =~= Seq::<usize>::empty());
            assert(targets.take(1).drop_first() =~= Seq::<usize>::empty());
            assert(targets.take(1) =~= seq![targets[0]]);
        }
    } else {
        assert(targets.take(0) =~= targets);
    }
}

/// The number of those of the first `count` directories whose size has not
/// been worked out.
pub open spec fn unsized_count(sizes: Seq<Option<usize>>, count: int) -> nat
    decreases count,
{
    if count <= 0 {
        0
    } else {
        unsized_count(sizes, count - 1) + if sizes[count - 1] is None {
            1nat
        } else {
            0nat
        }
    }
}

/// Working out one more size leaves one directory less without a size.
proof fn lemma_one_sized(sizes: Seq<Option<usize>>, node: int, size: usize, count: int)
    requires
        0 <= node < sizes.len(),
        0 <= count <= sizes.len(),
        sizes[node] is None,
    ensures
        unsized_count(sizes.update(node, Some(size)), count) + (if node < count {
            1nat
        } else {
            0nat
        }) == unsized_count(sizes, count),
    decreases count,
{
    if count > 0 {
        lemma_one_sized(sizes, node, size, count - 1);
    }
}

/// A walk that has visited the first directory, and every directory in a
/// directory that it has visited, has visited them all.
proof fn lemma_finished(disk: DiskView, finished: Set<usize>, node: int)
    requires
        disk_wf(disk),
        finished.contains(0),
        forall|i: int|
            0 <= i < disk.edges.len() && finished.contains((#[trigger] disk.edges[i]).0)
                ==> finished.contains(disk.edges[i].1),
        0 <= node < disk.names.len(),
    ensures
        finished.contains(node as usize),
    decreases node,
{
    if node > 0 {
        assert(has_parent(disk.edges, node));
        let i = choose|i: int| 0 <= i < disk.edges.len() && (#[trigger] disk.edges[i]).1 == node;
        lemma_finished(disk, finished, disk.edges[i].0 as int);
    }
}

/// Adds up the sizes of files. `None` where the sum is beyond the greatest
/// number.
fn files_total(files: &Vec<File>) -> (total: Option<usize>)
    ensures
        match total {
            Some(total) => total == files_size(files@, files@.len() as int),
            None => files_size(files@, files@.len() as int) > usize::MAX,
        },
{
    let mut total: usize = 0;
    let mut index: usize = 0;
    while index < files.len()
        invariant
            index <= files@.len(),
            total == files_size(files@, index as int),
        decreases files@.len() - index,
    {
        let size = match files[index].size {
            Some(size) => size as usize,
            None => 0,
        };
        total = match total.checked_add(size) {
            Some(total) => total,
            None => {
                proof {
                    lemma_files_size(files@, index + 1, files@.len() as int);
                }
                return None;
            },
        };
        index += 1;
    }
    Some(total)
}

impl DirectoryTree {
    /// Adds up the sizes of the directories in the directory `node`, which
    /// have been worked out. `None` where the sum is beyond the greatest
    /// number.
    fn children_total(&self, node: usize, Ghost(start): Ghost<DiskView>) -> (total: Option<usize>)
        requires
            self.wf(),
            node < self@.names.len(),
            start.names == self@.names,
            start.files == self@.files,
            start.edges == self@.edges,
            forall|i: int|
                0 <= i < self@.edges.len() && (#[trigger] self@.edges[i]).0 == node ==> self@.sizes[self@.edges[i].1 as int]
                    == Some(dir_size(start, self@.edges[i].1 as int) as usize) && dir_size(
                    start,
                    self@.edges[i].1 as int,
                ) <= usize::MAX,
        ensures
            match total {
                Some(total) => total == children_size(start, node as int, start.edges.len() as int),
                None => children_size(start, node as int, start.edges.len() as int) > usize::MAX,
            },
    {
        let children = outgoing(&self.graph, node);
        let ghost targets = targets_from(start.edges, node);
        proof {
            lemma_children_are_targets(start, node as int, start.edges.len() as int);
            assert(start.edges.take(start.edges.len() as int) =~= start.edges);
            lemma_targets(start.edges, node, start.names.len() as int);
            lemma_targets_are_edges(start.edges, node);
        }
        let mut total: usize = 0;
        let mut index: usize = 0;
        proof {
            assert(targets.take(0) =~= Seq::<usize>::empty());
            assert forall|i: int| 0 <= i < targets.len() implies self@.sizes[(
            #[trigger] targets[i]) as int] == Some(dir_size(start, targets[i] as int) as usize)
                && dir_size(start, targets[i] as int) <= usize::MAX by {
                assert(is_edge(start.edges, node, targets[i]));
                let j = choose|j: int|
                    0 <= j < start.edges.len() && #[trigger] start.edges[j] == (node, targets[i]);
                assert(self@.edges[j].0 == node);
            }
        }
        while index < children.len()
            invariant
                index <= children@.len(),
                self.wf(),
                children@ == targets,
                targets == targets_from(start.edges, node),
                start.names == self@.names,
                start.files == self@.files,
                start.edges == self@.edges,
                start.files.len() == start.names.len(),
                forall|i: int| 0 <= i < targets.len() ==> #[trigger] targets[i] < start.names.len(),
                forall|i: int|
                    0 <= i < targets.len() ==> self@.sizes[(#[trigger] targets[i]) as int] == Some(
                        dir_size(start, targets[i] as int) as usize,
                    ) && dir_size(start, targets[i] as int) <= usize::MAX,
                total == sizes_of(start, targets.take(index as int)),
                sizes_of(start, targets) == children_size(
                    start,
                    node as int,
                    start.edges.len() as int,
                ),
            decreases children@.len() - index,
        {
            let child = children[index];
            proof {
                lemma_sizes_of_prefix(start, targets, index as int);
                lemma_sizes_of_prefix(start, targets, index + 1);
                lemma_dir_nonneg(start, child as int);
                assert(self@.sizes[child as int] == self.dirs@[child as int].size);
            }
            let size = match self.dirs[child].size {
                Some(size) => size,
                None => 0,
            };
            total = match total.checked_add(size) {
                Some(total) => total,
                None => {
                    return None;
                },
            };
            index += 1;
        }
        proof {
            assert(targets.take(targets.len() as int) =~= targets);
        }
        Some(total)
    }
}

/// Whether an edge leads from `node` to `target`.
pub open spec fn is_edge(edges: Seq<(usize, usize)>, node: usize, target: usize) -> bool {
    exists|j: int| 0 <= j < edges.len() && #[trigger] edges[j] == (node, target)
}

/// Every target of an edge from a node is the target of such an edge.
proof fn lemma_targets_are_edges(edges: Seq<(usize, usize)>, node: usize)
    ensures
        forall|i: int|
            0 <= i < targets_from(edges, node).len() ==> is_edge(
                edges,
                node,
                #[trigger] targets_from(edges, node)[i],
            ),
    decreases edges.len(),
{
    if edges.len() > 0 {
        lemma_targets_are_edges(edges.drop_last(), node);
        let all = targets_from(edges, node);
        let rest = targets_from(edges.drop_last(), node);
        assert forall|i: int| 0 <= i < all.len() implies is_edge(edges, node, #[trigger] all[i]) by {
            if edges.last().0 == node && i == 0 {
                assert(edges[edges.len() - 1] == (node, all[0]));
            } else {
                let k = if edges.last().0 == node {
                    i - 1
                } else {
                    i
                };
                assert(rest[k] == all[i]);
                assert(is_edge(edges.drop_last(), node, rest[k]));
                let j = choose|j: int|
                    0 <= j < edges.drop_last().len() && #[trigger] edges.drop_last()[j] == (
                        node,
                        rest[k],
                    );
                assert(edges[j] == edges.drop_last()[j]);
            }
        }
    }
}

/// Whether the size of every directory of the disk fits into a number.
pub open spec fn sizes_fit(disk: DiskView) -> bool {
    forall|node: int| 0 <= node < disk.names.len() ==> #[trigger] dir_size(disk, node) <= usize::MAX
}

/// Whether the sizes of the disk `sized` are those of the directories of the
/// disk `disk`, which is otherwise the same.
pub open spec fn is_sized(sized: DiskView, disk: DiskView) -> bool {
    &&& sized.names == disk.names
    &&& sized.files == disk.files
    &&& sized.edges == disk.edges
    &&& sized.sizes.len() == disk.names.len()
    &&& forall|node: int|
        0 <= node < disk.names.len() ==> #[trigger] sized.sizes[node] == Some(
            dir_size(disk, node) as usize,
        )
}

/// Works out the size of every directory, from the directories without
/// directories in them upwards. `None` where a size is beyond the greatest
/// number.
pub fn calculate_directory_sizes(dir_graph: DirectoryTree, root_node: usize) -> (sized: Option<
    DirectoryTree,
>)
    requires
        dir_graph.wf(),
        root_node == 0,
        forall|node: int| 0 <= node < dir_graph@.sizes.len() ==> dir_graph@.sizes[node] is None,
    ensures
        match sized {
            Some(sized) => sized.wf() && sizes_fit(dir_graph@) && is_sized(sized@, dir_graph@),
            None => !sizes_fit(dir_graph@),
        },
{
    let ghost start = dir_graph@;
    let mut tree = dir_graph;
    let mut bottom_up_traversal = PostOrder::new(&tree.graph, root_node);
    loop
        invariant
            tree.wf(),
            disk_wf(start),
            start == dir_graph@,
            tree@.names == start.names,
            tree@.files == start.files,
            tree@.edges == start.edges,
            walked_edges_of(bottom_up_traversal) == start.edges,
            start_of(bottom_up_traversal) == 0,
            forall|node: int|
                0 <= node < start.names.len() ==> (finished_of(bottom_up_traversal).contains(
                    node as usize,
                ) <==> (#[trigger] tree@.sizes[node]) is Some),
            forall|node: int|
                0 <= node < start.names.len() && (#[trigger] tree@.sizes[node]) is Some ==> {
                    &&& dir_size(start, node) <= usize::MAX
                    &&& tree@.sizes[node] == Some(dir_size(start, node) as usize)
                },
        ensures
            tree.wf(),
            sizes_fit(start),
            is_sized(tree@, start),
        decreases unsized_count(tree@.sizes, tree@.sizes.len() as int),
    {
        let ghost done = finished_of(bottom_up_traversal);
        let visited = match bottom_up_traversal.next(&tree.graph) {
            Some(visited) => visited,
            None => {
                proof {
                    assert forall|node: int| 0 <= node < start.names.len() implies #[trigger] dir_size(
                        start,
                        node,
                    ) <= usize::MAX && tree@.sizes[node] == Some(
                        dir_size(start, node) as usize,
                    ) by {
                        lemma_finished(start, finished_of(bottom_up_traversal), node);
                        assert(tree@.sizes[node] is Some);
                    }
                }
                break ;
            },
        };
        let ghost before = tree@;
        proof {
            assert(before.sizes[visited as int] is None);
            lemma_dir_nonneg(start, visited as int);
            lemma_children_nonneg(start, visited as int, start.edges.len() as int);
            lemma_files_size(
                start.files[visited as int],
                0,
                start.files[visited as int].len() as int,
            );
            assert forall|i: int|
                0 <= i < start.edges.len() && (#[trigger] tree@.edges[i]).0
                    == visited implies tree@.sizes[tree@.edges[i].1 as int] == Some(
                dir_size(start, tree@.edges[i].1 as int) as usize,
            ) && dir_size(start, tree@.edges[i].1 as int) <= usize::MAX by {
                let child = start.edges[i].1;
                assert(finished_of(bottom_up_traversal).contains(child) || true);
            }
        }
        let total_file_size = match files_total(&tree.dirs[visited].files) {
            Some(total) => total,
            None => {
                proof {
                    assert(dir_size(start, visited as int) > usize::MAX);
                }
                return None;
            },
        };
        let total_child_dir_size = match tree.children_total(visited, Ghost(start)) {
            Some(total) => total,
            None => {
                proof {
                    assert(dir_size(start, visited as int) > usize::MAX);
                }
                return None;
            },
        };
        let total = match total_file_size.checked_add(total_child_dir_size) {
            Some(total) => total,
            None => {
                proof {
                    assert(dir_size(start, visited as int) > usize::MAX);
                }
                return None;
            },
        };
        tree.dirs[visited].size = Some(total);
        proof {
            assert(tree@.sizes =~= before.sizes.update(visited as int, Some(total)));
            assert(tree@.names =~= start.names);
            assert forall|i: int| 0 <= i < start.files.len() implies #[trigger] tree@.files[i]
                == start.files[i] by {
                assert(tree@.files[i] == before.files[i]);
            }
            assert(tree@.files =~= start.files);
            lemma_one_sized(before.sizes, visited as int, total, before.sizes.len() as int);
        }
    }
    Some(tree)
}

/// The disk that the session of the input leaves behind. Nothing where a
/// command of the session cannot be followed.
pub open spec fn session_disk(input: Seq<u8>) -> Option<DiskView> {
    match disk_after(
        parsed_while::<InputLine>(input, 0),
        parsed_while::<InputLine>(input, 0).len() as int,
    ) {
        Some((disk, current)) => Some(disk),
        None => None,
    }
}

/// The sizes of those of the first `count` directories that are smaller than
/// 100000, added up.
pub open spec fn small_sizes(disk: DiskView, count: int) -> int
    decreases count,
{
    if count <= 0 {
        0
    } else {
        small_sizes(disk, count - 1) + if dir_size(disk, count - 1) < 100000 {
            dir_size(disk, count - 1)
        } else {
            0
        }
    }
}

/// The small sizes of up to `count` directories add up to less than `count`
/// times 100000.
proof fn lemma_small_sizes(disk: DiskView, count: int)
    requires
        disk.files.len() == disk.names.len(),
        0 <= count,
    ensures
        0 <= small_sizes(disk, count) <= count * 100000,
    decreases count,
{
    if count > 0 {
        lemma_small_sizes(disk, count - 1);
        lemma_dir_nonneg(disk, count - 1);
    }
}

/// Reads the session and works out the sizes of the directories.
fn sized_disk(input: &[u8]) -> (sized: Option<DirectoryTree>)
    ensures
        match (session_disk(input@), sized) {
            (Some(disk), Some(tree)) => tree.wf() && disk_wf(disk) && sizes_fit(disk) && is_sized(
                tree@,
                disk,
            ),
            (Some(disk), None) => !sizes_fit(disk),
            (None, None) => true,
            (None, Some(tree)) => false,
        },
{
    let (dir_graph, root_node) = match parse_from_command_input(input) {
        Some(built) => built,
        None => {
            return None;
        },
    };
    proof {
        lemma_fresh_disk(
            parsed_while::<InputLine>(input@, 0),
            parsed_while::<InputLine>(input@, 0).len() as int,
        );
    }
    calculate_directory_sizes(dir_graph, root_node)
}

/// A session works out no size.
proof fn lemma_fresh_disk(lines: Seq<LineView>, count: int)
    ensures
        match disk_after(lines, count) {
            Some((disk, current)) => forall|node: int|
                0 <= node < disk.sizes.len() ==> (#[trigger] disk.sizes[node]) is None,
            None => true,
        },
    decreases count,
{
    if count > 0 {
        lemma_fresh_disk(lines, count - 1);
    }
}

/// The sizes of the directories that are smaller than 100000, added up.
/// `None` where the session cannot be followed, or a size or the sum is
/// beyond what can be told.
pub fn part_one(input: &str) -> (sum: Option<u32>)
    ensures
        sum == match session_disk(input.spec_bytes()) {
            Some(disk) => if sizes_fit(disk) && small_sizes(disk, disk.names.len() as int)
                <= u32::MAX {
                Some(small_sizes(disk, disk.names.len() as int) as u32)
            } else {
                None
            },
            None => None,
        },
{
    let sized_dir_graph = match sized_disk(input.as_bytes()) {
        Some(tree) => tree,
        None => {
            return None;
        },
    };
    let ghost disk = session_disk(input.spec_bytes())->0;
    let dirs = sized_dir_graph.dirs();
    let mut sum: u64 = 0;
    let mut index: usize = 0;
    while index < dirs.len()
        invariant
            index <= dirs@.len(),
            dirs@.len() == disk.names.len(),
            disk.names.len() <= u32::MAX,
            disk.files.len() == disk.names.len(),
            sizes_fit(disk),
            forall|i: int|
                0 <= i < dirs@.len() ==> (#[trigger] dirs@[i]).size == Some(
                    dir_size(disk, i) as usize,
                ),
            sum == small_sizes(disk, index as int),
        decreases dirs@.len() - index,
    {
        proof {
            lemma_small_sizes(disk, index as int);
            lemma_dir_nonneg(disk, index as int);
            assert(dir_size(disk, index as int) <= usize::MAX);
            assert(index * 100000 <= 4294967295 * 100000) by (nonlinear_arith)
                requires
                    index <= 4294967295,
            ;
        }
        let size = match dirs[index].size {
            Some(size) => size,
            None => 0,
        };
        if size < 100000usize {
            sum = sum + size as u64;
        }
        index += 1;
    }
    if sum > u32::MAX as u64 {
        None
    } else {
        Some(sum as u32)
    }
}

/// How much has to be freed on the disk: what is missing of 30000000 when
/// the directories take up their size of 70000000. Nothing where they take up
/// more than there is, or where nothing is missing.
pub open spec fn space_to_free(disk: DiskView) -> Option<int> {
    if dir_size(disk, 0) <= 70000000 && 70000000 - dir_size(disk, 0) <= 30000000 {
        Some(30000000 - (70000000 - dir_size(disk, 0)))
    } else {
        None
    }
}

/// Whether `size` is the smallest size of a directory that is greater than
/// `need`.
pub open spec fn is_smallest_above(size: int, disk: DiskView, need: int) -> bool {
    &&& exists|node: int| 0 <= node < disk.names.len() && #[trigger] dir_size(disk, node) == size
    &&& size > need
    &&& forall|node: int|
        0 <= node < disk.names.len() && #[trigger] dir_size(disk, node) > need ==> size
            <= dir_size(disk, node)
}

/// The size of the smallest directory whose removal frees enough space.
/// `None` where the session cannot be followed, where no space has to be
/// freed or no directory frees enough, or where a size is beyond what can be
/// told.
pub fn part_two(input: &str) -> (size: Option<u32>)
    ensures
        match session_disk(input.spec_bytes()) {
            Some(disk) => if sizes_fit(disk) && space_to_free(disk) is Some {
                match size {
                    Some(size) => is_smallest_above(size as int, disk, space_to_free(disk)->0),
                    None => forall|node: int|
                        0 <= node < disk.names.len() && #[trigger] dir_size(disk, node)
                            > space_to_free(disk)->0 ==> dir_size(disk, node) > u32::MAX,
                }
            } else {
                size is None
            },
            None => size is None,
        },
{
    let sized_dir_graph = match sized_disk(input.as_bytes()) {
        Some(tree) => tree,
        None => {
            return None;
        },
    };
    let ghost disk = session_disk(input.spec_bytes())->0;
    let dirs = sized_dir_graph.dirs();
    proof {
        lemma_dir_nonneg(disk, 0);
        assert(dir_size(disk, 0) <= usize::MAX);
    }
    let size_of_root = match dirs[0].size {
        Some(size) => size,
        None => 0,
    };
    if size_of_root > 70000000usize {
        return None;
    }
    let available_disk_space = 70000000usize - size_of_root;
    if available_disk_space > 30000000usize {
        return None;
    }
    let space_to_free = 30000000usize - available_disk_space;
    let mut best: Option<usize> = None;
    let ghost mut best_node: int = 0;
    let mut index: usize = 0;
    while index < dirs.len()
        invariant
            index <= dirs@.len(),
            dirs@.len() == disk.names.len(),
            sizes_fit(disk),
            disk.files.len() == disk.names.len(),
            forall|i: int|
                0 <= i < dirs@.len() ==> (#[trigger] dirs@[i]).size == Some(
                    dir_size(disk, i) as usize,
                ),
            match best {
                Some(best) => {
                    &&& 0 <= best_node < index
                    &&& dir_size(disk, best_node) == best
                    &&& best > space_to_free
                    &&& forall|node: int|
                        0 <= node < index && #[trigger] dir_size(disk, node) > space_to_free
                            ==> best <= dir_size(disk, node)
                },
                None => forall|node: int|
                    0 <= node < index ==> #[trigger] dir_size(disk, node) <= space_to_free,
            },
        decreases dirs@.len() - index,
    {
        proof {
            lemma_dir_nonneg(disk, index as int);
            assert(dir_size(disk, index as int) <= usize::MAX);
        }
        let size = match dirs[index].size {
            Some(size) => size,
            None => 0,
        };
        if size > space_to_free {
            let better = match best {
                Some(best) => size < best,
                None => true,
            };
            if better {
                best = Some(size);
                proof {
                    best_node = index as int;
                }
            }
        }
        index += 1;
    }
    match best {
        Some(best) => if best <= u32::MAX as usize {
            proof {
                assert(dir_size(disk, best_node) == best);
            }
            Some(best as u32)
        } else {
            None
        },
        None => None,
    }
}

} // verus!
