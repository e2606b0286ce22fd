use crate::error::{ConflictKind, Error, ErrorView, LoadFault, Violation};
use crate::file::FileType;
use crate::link::{children_view, Child, ChildView, Lazy, LazyView, Link, LinkView};
use crate::node::hex_of;
use crate::path::{append_bytes, join_path};
use crate::tree::Tree;
use vstd::prelude::*;
use vstd::string::StringSliceAdditionalSpecFns;
use vstd::utf8::{decode_utf8, valid_utf8};

verus! {

/// Calls `String::from_utf8_lossy` and takes the text as a `String`. Bytes
/// that are valid UTF-8 give the text that they encode; of other bytes
/// nothing is claimed.
#[verifier::external_body]
fn string_from_bytes(bytes: &[u8]) -> (r: String)
    ensures
        valid_utf8(bytes@) ==> r@ == decode_utf8(bytes@),
{
    String::from_utf8_lossy(bytes).into_owned()
}

/// The name of a kind of file.
pub open spec fn type_text(t: FileType) -> Seq<u8> {
    match t {
        FileType::Regular => "Regular".spec_bytes(),
        FileType::Executable => "Executable".spec_bytes(),
        FileType::Symlink => "Symlink".spec_bytes(),
    }
}

/// The name of a fault of loading.
pub open spec fn fault_text(f: LoadFault) -> Seq<u8> {
    match f {
        LoadFault::NotFound => "NotFound".spec_bytes(),
        LoadFault::Io => "Io".spec_bytes(),
        LoadFault::Malformed(_) => "Malformed".spec_bytes(),
    }
}

/// The lines that describe a link and all that is in memory below it. Every
/// line below the link begins with `prefix` and one `| ` for each level.
pub open spec fn describe_link(l: LinkView, prefix: Seq<u8>) -> Seq<u8>
    decreases l, 0int,
{
    match l {
        LinkView::Leaf(m) => "(File, ".spec_bytes() + hex_of(m.node@) + ", ".spec_bytes() + type_text(
            m.file_type,
        ) + ")\n".spec_bytes(),
        LinkView::Ephemeral(cs) => "(Ephemeral)\n".spec_bytes() + describe_children(
            cs,
            prefix,
            cs.len() as int,
        ),
        LinkView::Durable(n, lazy) => "(Durable, ".spec_bytes() + hex_of(n) + ")\n".spec_bytes() + (
        match lazy {
            LazyView::Unloaded => Seq::empty(),
            LazyView::Failed(f) => prefix + "failed to load: ".spec_bytes() + fault_text(f),
            LazyView::Loaded(cs) => describe_children(cs, prefix, cs.len() as int),
        }),
    }
}

/// The lines that describe the first `k` children of a directory.
pub open spec fn describe_children(cs: Seq<ChildView>, prefix: Seq<u8>, k: int) -> Seq<u8>
    decreases cs, k,
{
    if k <= 0 || k > cs.len() {
        Seq::empty()
    } else {
        describe_children(cs, prefix, k - 1) + prefix + cs[k - 1].name + " ".spec_bytes() + describe_link(
            cs[k - 1].link,
            prefix + "| ".spec_bytes(),
        )
    }
}

/// The lines that describe a tree.
pub open spec fn describe_tree(root: LinkView) -> Seq<u8> {
    "Root ".spec_bytes() + describe_link(root, "| ".spec_bytes())
}

fn write_link(out: &mut Vec<u8>, link: &Link, prefix: &mut Vec<u8>)
    ensures
        final(prefix)@ == old(prefix)@,
        final(out)@ == old(out)@ + describe_link(link@, old(prefix)@),
    decreases link, 0int,
{
    let ghost out0 = out@;
    match link {
        Link::Leaf(m) => {
            append_bytes(out, "(File, ".as_bytes());
            let hex = m.node.to_hex();
            append_bytes(out, hex.as_slice());
            append_bytes(out, ", ".as_bytes());
            match m.file_type {
                FileType::Regular => append_bytes(out, "Regular".as_bytes()),
                FileType::Executable => append_bytes(out, "Executable".as_bytes()),
                FileType::Symlink => append_bytes(out, "Symlink".as_bytes()),
            }
            append_bytes(out, ")\n".as_bytes());
            assert(out@ =~= out0 + describe_link(link@, prefix@));
        },
        Link::Ephemeral(cs) => {
            append_bytes(out, "(Ephemeral)\n".as_bytes());
            let ghost out1 = out@;
            write_children(out, cs, prefix);
            assert(out@ =~= out0 + describe_link(link@, prefix@));
        },
        Link::Durable(entry) => {
            append_bytes(out, "(Durable, ".as_bytes());
            let hex = entry.node.to_hex();
            append_bytes(out, hex.as_slice());
            append_bytes(out, ")\n".as_bytes());
            match &entry.links {
                Lazy::Unloaded => {},
                Lazy::Failed(f) => {
                    append_bytes(out, prefix.as_slice());
                    append_bytes(out, "failed to load: ".as_bytes());
                    match f {
                        LoadFault::NotFound => append_bytes(out, "NotFound".as_bytes()),
                        LoadFault::Io => append_bytes(out, "Io".as_bytes()),
                        LoadFault::Malformed(_) => append_bytes(out, "Malformed".as_bytes()),
                    }
                },
                Lazy::Loaded(cs) => {
                    write_children(out, cs, prefix);
                },
            }
            assert(out@ =~= out0 + describe_link(link@, old(prefix)@));
        },
    }
}

fn write_children(out: &mut Vec<u8>, cs: &Vec<Child>, prefix: &mut Vec<u8>)
    ensures
        final(prefix)@ == old(prefix)@,
        final(out)@ == old(out)@ + describe_children(children_view(cs@), old(prefix)@, cs@.len() as int),
    decreases cs, 1int,
{
    let ghost out0 = out@;
    let ghost cv = children_view(cs@);
    let ghost before = prefix@;
    let mut i: usize = 0;
    assert(out@ =~= out0 + describe_children(cv, before, 0));
    while i < cs.len()
        invariant
            i <= cs@.len(),
            cv == children_view(cs@),
            prefix@ == before,
            out@ == out0 + describe_children(cv, before, i as int),
        decreases cs@.len() - i,
    {
        let c = &cs[i];
        assert(cv[i as int] == c@);
        let ghost out1 = out@;
        append_bytes(out, prefix.as_slice());
        append_bytes(out, c.name.as_bytes());
        append_bytes(out, " ".as_bytes());
        let len = prefix.len();
        append_bytes(prefix, "| ".as_bytes());
        write_link(out, &c.link, prefix);
        prefix.truncate(len);
        proof {
            assert(prefix@ =~= before);
            assert(out@ =~= out0 + describe_children(cv, before, i + 1));
        }
        i += 1;
    }
}

impl Tree {
    /// The lines that describe the tree, for the eyes of a maintainer: one
    /// line for each link in memory, with its name, its kind and its hash.
    pub fn describe(&self) -> (r: Vec<u8>)
        ensures
            r@ == describe_tree(self.root@),
    {
        let mut out: Vec<u8> = Vec::new();
        append_bytes(&mut out, "Root ".as_bytes());
        let mut prefix: Vec<u8> = Vec::new();
        append_bytes(&mut prefix, "| ".as_bytes());
        assert(prefix@ =~= "| ".spec_bytes());
        write_link(&mut out, &self.root, &mut prefix);
        out
    }

    /// The description of the tree as text: the text that `describe`
    /// encodes, where the names in the tree are valid UTF-8.
    pub fn debug_string(&self) -> (r: String)
        ensures
            valid_utf8(describe_tree(self.root@)) ==> r@ == decode_utf8(describe_tree(self.root@)),
    {
        string_from_bytes(self.describe().as_slice())
    }
}

/// The name of a violation.
pub open spec fn violation_text(v: Violation) -> Seq<u8> {
    match v {
        Violation::MalformedEntry(_) => "a stored directory cannot be read".spec_bytes(),
        Violation::EntryTooLarge => "a directory is too large to be hashed".spec_bytes(),
        Violation::EphemeralParent => "Found ephemeral parent when finalizing manifest.".spec_bytes(),
        Violation::TooManyParents => "more than two parent trees".spec_bytes(),
        Violation::PathTooLong => "the tree is deeper than a path can be long".spec_bytes(),
        Violation::NotLoaded => "a stored directory was not loaded".spec_bytes(),
        Violation::IdDagAhead => "id_dag_next_id > id_map_next_id; unexpected state, re-seed the repository".spec_bytes(),
        Violation::VertexSpaceExhausted => "no vertex is left".spec_bytes(),
        Violation::HeadUnassigned => "error building IdMap; failed to assign head".spec_bytes(),
        Violation::UnknownParents => "error building IdMap; unexpected request for parents".spec_bytes(),
        Violation::UnknownVertex => "a vertex cannot be used".spec_bytes(),
        Violation::ParentsContradict => "a commit was fetched with other parents than recorded".spec_bytes(),
    }
}

/// The message of an error.
pub open spec fn message_bytes(e: ErrorView) -> Seq<u8> {
    match e {
        ErrorView::BlobNotFound { path, node } => "no blob for '".spec_bytes() + join_path(path)
            + "' with node ".spec_bytes() + hex_of(node),
        ErrorView::StorageIo => "the blob store cannot be reached".spec_bytes(),
        ErrorView::PathConflict { kind, path, at } => match kind {
            ConflictKind::File => "Asked to insert '".spec_bytes() + join_path(path)
                + "' but '".spec_bytes() + join_path(at) + "' is already a file.".spec_bytes(),
            ConflictKind::Dir => "Asked to insert '".spec_bytes() + join_path(path)
                + "' but it is already a directory.".spec_bytes(),
        },
        ErrorView::InvariantViolated(v) => violation_text(v),
        ErrorView::IdMapCollision => "the id map holds something else".spec_bytes(),
        ErrorView::DagBackend => "the segment builder failed".spec_bytes(),
        ErrorView::NotFound => "not found in the id map".spec_bytes(),
    }
}

impl Error {
    /// The message of the error as bytes.
    pub fn message_bytes(&self) -> (r: Vec<u8>)
        ensures
            r@ == message_bytes(self@),
    {
        let mut out: Vec<u8> = Vec::new();
        match self {
            Error::BlobNotFound { path, node } => {
                append_bytes(&mut out, "no blob for '".as_bytes());
                append_bytes(&mut out, path.to_bytes().as_slice());
                append_bytes(&mut out, "' with node ".as_bytes());
                append_bytes(&mut out, node.to_hex().as_slice());
            },
            Error::StorageIo => {
                append_bytes(&mut out, "the blob store cannot be reached".as_bytes());
            },
            Error::PathConflict { kind, path, at } => {
                append_bytes(&mut out, "Asked to insert '".as_bytes());
                append_bytes(&mut out, path.to_bytes().as_slice());
                match kind {
                    ConflictKind::File => {
                        append_bytes(&mut out, "' but '".as_bytes());
                        append_bytes(&mut out, at.to_bytes().as_slice());
                        append_bytes(&mut out, "' is already a file.".as_bytes());
                    },
                    ConflictKind::Dir => {
                        append_bytes(&mut out, "' but it is already a directory.".as_bytes());
                    },
                }
            },
            Error::InvariantViolated(v) => {
                let text = match v {
                    Violation::MalformedEntry(_) => "a stored directory cannot be read",
                    Violation::EntryTooLarge => "a directory is too large to be hashed",
                    Violation::EphemeralParent => "Found ephemeral parent when finalizing manifest.",
                    Violation::TooManyParents => "more than two parent trees",
                    Violation::PathTooLong => "the tree is deeper than a path can be long",
                    Violation::NotLoaded => "a stored directory was not loaded",
                    Violation::IdDagAhead => "id_dag_next_id > id_map_next_id; unexpected state, re-seed the repository",
                    Violation::VertexSpaceExhausted => "no vertex is left",
                    Violation::HeadUnassigned => "error building IdMap; failed to assign head",
                    Violation::UnknownParents => "error building IdMap; unexpected request for parents",
                    Violation::UnknownVertex => "a vertex cannot be used",
                    Violation::ParentsContradict => "a commit was fetched with other parents than recorded",
                };
                append_bytes(&mut out, text.as_bytes());
            },
            Error::IdMapCollision => {
                append_bytes(&mut out, "the id map holds something else".as_bytes());
            },
            Error::DagBackend => {
                append_bytes(&mut out, "the segment builder failed".as_bytes());
            },
            Error::NotFound => {
                append_bytes(&mut out, "not found in the id map".as_bytes());
            },
        }
        assert(out@ =~= message_bytes(self@));
        out
    }

    /// The message of the error as text: the text that `message_bytes`
    /// encodes, where the paths in the error are valid UTF-8.
    pub fn message(&self) -> (r: String)
        ensures
            valid_utf8(message_bytes(self@)) ==> r@ == decode_utf8(message_bytes(self@)),
    {
        string_from_bytes(self.message_bytes().as_slice())
    }
}

} // verus!
