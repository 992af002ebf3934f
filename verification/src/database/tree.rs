use vstd::prelude::*;
use vstd::relations::total_ordering;
use vstd::seq_lib::lemma_sorted_unique;
use vstd::string::*;
use vstd::utf8::encode_utf8;

use crate::codec::is_oid_chars;
use crate::codec::obj_bytes;
use crate::codec::oid_of;
use crate::codec::unhex;
use crate::database::object::Object;
use crate::database::Database;
use crate::database::WriteRequest;
use crate::database::entry::mode_chars;
use crate::database::entry::Entry;
use crate::types::RitError;
use crate::types::Types;
use crate::workspace::FileStat;

verus! {

// ---------------------------------------------------------------------------
// The mathematical model of entries and trees
// ---------------------------------------------------------------------------

/// What an `Entry` says, stripped to its mathematical content.
pub struct EntryV {
    pub name: Seq<char>,
    pub oid: Seq<char>,
    pub stat: FileStat,
}

pub open spec fn entry_v(e: Entry) -> EntryV {
    EntryV { name: e.name@, oid: e.oid@, stat: e.stat }
}

pub open spec fn entries_dv(s: Seq<Entry>) -> Seq<EntryV> {
    Seq::new(s.len(), |i: int| entry_v(s[i]))
}

/// A node of the model tree: a leaf entry, or a subdirectory holding a
/// name-keyed list of nodes.
pub enum NodeV {
    Leaf { entry: EntryV },
    Dir { entries: Seq<(Seq<char>, NodeV)> },
}

// ---------------------------------------------------------------------------
// Byte-wise ordering of names and entries
// ---------------------------------------------------------------------------

/// Strict lexicographic order on byte strings.
pub open spec fn bytes_lt(a: Seq<u8>, b: Seq<u8>) -> bool
    decreases a.len(),
{
    if b.len() == 0 {
        false
    } else if a.len() == 0 {
        true
    } else if a[0] != b[0] {
        a[0] < b[0]
    } else {
        bytes_lt(a.drop_first(), b.drop_first())
    }
}

pub proof fn lemma_bytes_lt_connected(a: Seq<u8>, b: Seq<u8>)
    ensures
        bytes_lt(a, b) || bytes_lt(b, a) || a == b,
    decreases a.len(),
{
    if b.len() == 0 {
        if a.len() == 0 {
            assert(a =~= b);
        }
    } else if a.len() == 0 {
    } else if a[0] != b[0] {
    } else {
        lemma_bytes_lt_connected(a.drop_first(), b.drop_first());
        if !bytes_lt(a, b) && !bytes_lt(b, a) {
            assert(a.drop_first() == b.drop_first());
            assert(a =~= b) by {
                assert forall|i: int| 0 <= i < a.len() implies a[i] == b[i] by {
                    if i > 0 {
                        assert(a.drop_first()[i - 1] == b.drop_first()[i - 1]);
                    }
                }
            }
        }
    }
}

pub proof fn lemma_bytes_lt_asymm(a: Seq<u8>, b: Seq<u8>)
    ensures
        !(bytes_lt(a, b) && bytes_lt(b, a)),
    decreases a.len(),
{
    if bytes_lt(a, b) && bytes_lt(b, a) {
        lemma_bytes_lt_asymm(a.drop_first(), b.drop_first());
    }
}

pub proof fn lemma_bytes_lt_trans(a: Seq<u8>, b: Seq<u8>, c: Seq<u8>)
    requires
        bytes_lt(a, b),
        bytes_lt(b, c),
    ensures
        bytes_lt(a, c),
    decreases a.len(),
{
    if a.len() == 0 {
    } else {
        if a[0] == b[0] && b[0] == c[0] {
            lemma_bytes_lt_trans(a.drop_first(), b.drop_first(), c.drop_first());
        }
    }
}

/// UTF-8 encoding is injective: equal encodings come from equal names.
pub proof fn lemma_encode_utf8_injective(a: Seq<char>, b: Seq<char>)
    requires
        encode_utf8(a) == encode_utf8(b),
    ensures
        a == b,
{
    vstd::utf8::encode_utf8_decode_utf8(a);
    vstd::utf8::encode_utf8_decode_utf8(b);
}

pub open spec fn stat_rank(s: FileStat) -> int {
    match s {
        FileStat::Dir => 0,
        FileStat::File => 1,
        FileStat::Executable => 2,
    }
}

/// Total order on entries: byte-wise on the name, with the object id and the
/// file kind breaking ties, so that sorting is stable and deterministic.
pub open spec fn entry_le(a: EntryV, b: EntryV) -> bool {
    if encode_utf8(a.name) != encode_utf8(b.name) {
        bytes_lt(encode_utf8(a.name), encode_utf8(b.name))
    } else if encode_utf8(a.oid) != encode_utf8(b.oid) {
        bytes_lt(encode_utf8(a.oid), encode_utf8(b.oid))
    } else {
        stat_rank(a.stat) <= stat_rank(b.stat)
    }
}

pub open spec fn entry_leq() -> spec_fn(EntryV, EntryV) -> bool {
    |a: EntryV, b: EntryV| entry_le(a, b)
}

proof fn lemma_entry_le_antisymm(x: EntryV, y: EntryV)
    requires
        entry_le(x, y),
        entry_le(y, x),
    ensures
        x == y,
{
    if encode_utf8(x.name) != encode_utf8(y.name) {
        lemma_bytes_lt_asymm(encode_utf8(x.name), encode_utf8(y.name));
    } else {
        lemma_encode_utf8_injective(x.name, y.name);
        if encode_utf8(x.oid) != encode_utf8(y.oid) {
            lemma_bytes_lt_asymm(encode_utf8(x.oid), encode_utf8(y.oid));
        } else {
            lemma_encode_utf8_injective(x.oid, y.oid);
            assert(stat_rank(x.stat) == stat_rank(y.stat));
            assert(x.stat == y.stat);
        }
    }
}

proof fn lemma_entry_le_trans(x: EntryV, y: EntryV, z: EntryV)
    requires
        entry_le(x, y),
        entry_le(y, z),
    ensures
        entry_le(x, z),
{
    let nx = encode_utf8(x.name);
    let ny = encode_utf8(y.name);
    let nz = encode_utf8(z.name);
    if nx != ny && ny != nz {
        lemma_bytes_lt_trans(nx, ny, nz);
        if nx == nz {
            lemma_bytes_lt_asymm(nx, ny);
        }
    } else if nx == ny || ny == nz {
        if nx != nz {
            // the unequal pair carries the strict order over
        } else {
            // names all equal up to encoding: compare ids
            let ox = encode_utf8(x.oid);
            let oy = encode_utf8(y.oid);
            let oz = encode_utf8(z.oid);
            if ox != oy && oy != oz {
                lemma_bytes_lt_trans(ox, oy, oz);
                if ox == oz {
                    lemma_bytes_lt_asymm(ox, oy);
                }
            }
        }
    }
}

pub proof fn lemma_entry_le_total()
    ensures
        total_ordering(entry_leq()),
{
    let leq = entry_leq();
    assert forall|x: EntryV, y: EntryV| #[trigger] leq(x, y) && #[trigger] leq(y, x) implies x
        == y by {
        lemma_entry_le_antisymm(x, y);
    }
    assert forall|x: EntryV, y: EntryV, z: EntryV|
        #[trigger] leq(x, y) && #[trigger] leq(y, z) implies leq(x, z) by {
        lemma_entry_le_trans(x, y, z);
    }
    assert forall|x: EntryV, y: EntryV| #[trigger] leq(x, y) || #[trigger] leq(y, x) by {
        if encode_utf8(x.name) != encode_utf8(y.name) {
            lemma_bytes_lt_connected(encode_utf8(x.name), encode_utf8(y.name));
        } else if encode_utf8(x.oid) != encode_utf8(y.oid) {
            lemma_bytes_lt_connected(encode_utf8(x.oid), encode_utf8(y.oid));
        }
    }
}

// ---------------------------------------------------------------------------
// Splitting a path into components
// ---------------------------------------------------------------------------

/// The components of a path, split on `/`. Always at least one component;
/// empty components witness a malformed path such as `a//b`, a leading or a
/// trailing slash. The builder rejects such paths outright rather than
/// normalizing them: the workspace scan hands in clean relative paths, and
/// anything else is treated as a caller error.
pub open spec fn split_path(s: Seq<char>) -> Seq<Seq<char>>
    decreases s.len(),
{
    if s.len() == 0 {
        seq![Seq::<char>::empty()]
    } else if s[0] == '/' {
        seq![Seq::<char>::empty()] + split_path(s.drop_first())
    } else {
        let rest = split_path(s.drop_first());
        seq![seq![s[0]] + rest[0]] + rest.drop_first()
    }
}

pub proof fn lemma_split_path_len(s: Seq<char>)
    ensures
        split_path(s).len() >= 1,
    decreases s.len(),
{
    if s.len() > 0 {
        lemma_split_path_len(s.drop_first());
    }
}

pub open spec fn has_empty_component(cs: Seq<Seq<char>>) -> bool {
    exists|i: int| 0 <= i < cs.len() && #[trigger] cs[i].len() == 0
}

/// Splitting at the first slash peels off the first component.
pub proof fn lemma_split_path_step(s: Seq<char>, i: int)
    requires
        0 <= i < s.len(),
        s[i] == '/',
        forall|j: int| 0 <= j < i ==> s[j] != '/',
    ensures
        split_path(s) =~= seq![s.subrange(0, i)] + split_path(s.subrange(i + 1, s.len() as int)),
    decreases i,
{
    lemma_split_path_len(s.subrange(i + 1, s.len() as int));
    if i == 0 {
        assert(s.drop_first() =~= s.subrange(1, s.len() as int));
        assert(s.subrange(0, 0) =~= Seq::<char>::empty());
    } else {
        let t = s.drop_first();
        assert(t[i - 1] == '/');
        assert forall|j: int| 0 <= j < i - 1 implies t[j] != '/' by {
            assert(t[j] == s[j + 1]);
        }
        lemma_split_path_step(t, i - 1);
        assert(t.subrange(0, i - 1) =~= s.subrange(1, i));
        assert(t.subrange(i, t.len() as int) =~= s.subrange(i + 1, s.len() as int));
        lemma_split_path_len(s.subrange(i + 1, s.len() as int));
        assert(seq![s[0]] + split_path(t)[0] =~= s.subrange(0, i));
    }
}

/// A path without slashes is one single component.
pub proof fn lemma_split_path_noslash(s: Seq<char>)
    requires
        forall|j: int| 0 <= j < s.len() ==> s[j] != '/',
    ensures
        split_path(s) =~= seq![s],
    decreases s.len(),
{
    if s.len() > 0 {
        lemma_split_path_noslash(s.drop_first());
        assert(seq![s[0]] + split_path(s.drop_first())[0] =~= s);
        assert(split_path(s.drop_first()).drop_first() =~= Seq::<Seq<char>>::empty());
        assert(split_path(s) =~= seq![seq![s[0]] + split_path(s.drop_first())[0]]
            + split_path(s.drop_first()).drop_first());
    } else {
        assert(s =~= Seq::<char>::empty());
    }
}

// ---------------------------------------------------------------------------
// Well-formedness and serialization of model trees
// ---------------------------------------------------------------------------

/// Well-formed level: node names strictly ascending byte-wise (hence unique),
/// every leaf's object id well formed, every subdirectory well formed.
pub open spec fn entries_wf(s: Seq<(Seq<char>, NodeV)>) -> bool
    decreases s, 0int,
{
    if s.len() == 0 {
        true
    } else {
        &&& node_wf(s[0].1)
        &&& (s.len() > 1 ==> bytes_lt(encode_utf8(s[0].0), encode_utf8(s[1].0)))
        &&& entries_wf(s.drop_first())
    }
}

pub open spec fn node_wf(n: NodeV) -> bool
    decreases n, 1int,
{
    match n {
        NodeV::Leaf { entry } => is_oid_chars(entry.oid),
        NodeV::Dir { entries } => entries_wf(entries),
    }
}

/// The mode string a node serializes under.
pub open spec fn node_mode(n: NodeV) -> Seq<char> {
    match n {
        NodeV::Leaf { entry } => mode_chars(entry.stat),
        NodeV::Dir { entries } => "040000"@,
    }
}

/// The serialized form of one directory line: mode, space, name, NUL, and
/// the referenced object's raw 20-byte digest.
pub open spec fn entry_line(name: Seq<char>, n: NodeV) -> Seq<u8>
    decreases n, 2int,
{
    encode_utf8(node_mode(n)) + seq![32u8] + encode_utf8(name) + seq![0u8] + node_raw_oid(n)
}

/// The raw digest bytes a node is referenced by: a leaf's stored id decoded
/// from hex, a subdirectory's digest of its own canonical bytes.
pub open spec fn node_raw_oid(n: NodeV) -> Seq<u8>
    decreases n, 1int,
{
    match n {
        NodeV::Leaf { entry } => unhex(entry.oid),
        NodeV::Dir { entries } => crate::codec::sha1_of(
            obj_bytes(Types::Tree, entries_payload(entries)),
        ),
    }
}

/// The canonical payload of a directory level: the concatenation of its
/// entry lines, in stored (sorted) order.
pub open spec fn entries_payload(s: Seq<(Seq<char>, NodeV)>) -> Seq<u8>
    decreases s, 3int,
{
    if s.len() == 0 {
        Seq::<u8>::empty()
    } else {
        entry_line(s[0].0, s[0].1) + entries_payload(s.drop_first())
    }
}

/// The object id of a tree with the given entries.
pub open spec fn tree_oid_of(s: Seq<(Seq<char>, NodeV)>) -> Seq<char> {
    oid_of(Types::Tree, entries_payload(s))
}

// ---------------------------------------------------------------------------
// Inserting one entry into a model tree
// ---------------------------------------------------------------------------

/// The chain of fresh directories (ending in the leaf) that inserting an
/// entry creates below a level where its next component is missing.
pub open spec fn fresh_node(comps: Seq<Seq<char>>, depth: int, entry: EntryV) -> NodeV
    decreases comps.len() - depth,
{
    if depth >= comps.len() - 1 {
        NodeV::Leaf { entry }
    } else {
        NodeV::Dir { entries: seq![(comps[depth + 1], fresh_node(comps, depth + 1, entry))] }
    }
}

/// Insert an entry at its path below one level, keeping names sorted.
/// `None` is a name collision: the slot for a component is already taken by
/// a leaf, or the leaf's own slot is already taken.
pub open spec fn insert_at(
    s: Seq<(Seq<char>, NodeV)>,
    comps: Seq<Seq<char>>,
    depth: int,
    entry: EntryV,
) -> Option<Seq<(Seq<char>, NodeV)>>
    decreases comps.len() - depth, s.len(),
{
    let key = comps[depth];
    let ek = encode_utf8(key);
    if s.len() == 0 || bytes_lt(ek, encode_utf8(s[0].0)) {
        Some(seq![(key, fresh_node(comps, depth, entry))] + s)
    } else if s[0].0 == key {
        if depth >= comps.len() - 1 {
            None
        } else {
            match s[0].1 {
                NodeV::Leaf { .. } => None,
                NodeV::Dir { entries } => match insert_at(entries, comps, depth + 1, entry) {
                    None => None,
                    Some(es) => Some(
                        seq![(key, NodeV::Dir { entries: es })] + s.drop_first(),
                    ),
                },
            }
        }
    } else {
        match insert_at(s.drop_first(), comps, depth, entry) {
            None => None,
            Some(es) => Some(seq![s[0]] + es),
        }
    }
}

/// Insert a whole entry into the root level, or report why it cannot be.
pub open spec fn build_insert(s: Seq<(Seq<char>, NodeV)>, e: EntryV) -> Option<
    Seq<(Seq<char>, NodeV)>,
> {
    let comps = split_path(e.name);
    if has_empty_component(comps) {
        None
    } else {
        insert_at(s, comps, 0, e)
    }
}

/// Fold the first `i` entries of a sorted list into a tree.
pub open spec fn build_upto(entries: Seq<EntryV>, i: int) -> Option<Seq<(Seq<char>, NodeV)>>
    decreases i,
{
    if i <= 0 {
        Some(Seq::<(Seq<char>, NodeV)>::empty())
    } else {
        match build_upto(entries, i - 1) {
            None => None,
            Some(s) => build_insert(s, entries[i - 1]),
        }
    }
}

/// What building a tree from a flat entry list yields: the entries are
/// sorted for determinism, then folded in one by one. `None` reports a name
/// collision or a malformed path.
pub open spec fn build_spec(entries: Seq<EntryV>) -> Option<Seq<(Seq<char>, NodeV)>> {
    build_upto(entries.sort_by(entry_leq()), entries.len() as int)
}

pub proof fn lemma_build_upto_none(entries: Seq<EntryV>, i: int, j: int)
    requires
        0 <= i <= j,
        build_upto(entries, i) is None,
    ensures
        build_upto(entries, j) is None,
    decreases j - i,
{
    if i < j {
        lemma_build_upto_none(entries, i, j - 1);
    }
}

// ---------------------------------------------------------------------------
// The executable tree
// ---------------------------------------------------------------------------

/// A node of a `Tree`: either a leaf `Entry` or a nested `Tree`.
pub enum TreeEntry {
    Entry(Entry),
    Tree(Tree),
}

/// A `Tree` maps path-component names to entries or nested trees, keyed and
/// sorted by name, with no duplicate names at one level. Its hash is set
/// once it has been stored, after every nested tree below it.
pub struct Tree {
    /// The sorted (name, node) pairs of this level.
    pub entries: Vec<(String, TreeEntry)>,

    /// Unique oid of the `Tree`, set once it has been stored.
    pub oid: Option<String>,
}

pub open spec fn node_v(te: TreeEntry) -> NodeV
    decreases te, 0int,
{
    match te {
        TreeEntry::Entry(e) => NodeV::Leaf { entry: entry_v(e) },
        TreeEntry::Tree(t) => NodeV::Dir { entries: entries_v(t.entries@) },
    }
}

pub open spec fn entries_v(s: Seq<(String, TreeEntry)>) -> Seq<(Seq<char>, NodeV)>
    decreases s, 1int,
{
    if s.len() == 0 {
        Seq::<(Seq<char>, NodeV)>::empty()
    } else {
        seq![(s[0].0@, node_v(s[0].1))] + entries_v(s.drop_first())
    }
}

pub proof fn lemma_entries_v_props(s: Seq<(String, TreeEntry)>)
    ensures
        entries_v(s).len() == s.len(),
        forall|i: int|
            0 <= i < s.len() ==> #[trigger] entries_v(s)[i] == (s[i].0@, node_v(s[i].1)),
    decreases s.len(),
{
    if s.len() > 0 {
        lemma_entries_v_props(s.drop_first());
        assert forall|i: int|
            0 <= i < s.len() implies #[trigger] entries_v(s)[i] == (s[i].0@, node_v(s[i].1)) by {
            if i > 0 {
                assert(entries_v(s)[i] == entries_v(s.drop_first())[i - 1]);
                assert(s.drop_first()[i - 1] == s[i]);
            }
        }
    }
}

/// Whether every nested tree below this level has been stored and remembers
/// the hash of its own contents.
pub open spec fn entries_stored(s: Seq<(String, TreeEntry)>) -> bool
    decreases s, 1int,
{
    if s.len() == 0 {
        true
    } else {
        (match s[0].1 {
            TreeEntry::Entry(_) => true,
            TreeEntry::Tree(sub) => tree_stored(sub),
        }) && entries_stored(s.drop_first())
    }
}

/// A stored tree: its nested trees are stored, and its remembered oid is
/// exactly the hash of its own canonical bytes.
pub open spec fn tree_stored(t: Tree) -> bool
    decreases t, 2int,
{
    &&& entries_stored(t.entries@)
    &&& (match t.oid {
        Some(s) => s@ == tree_oid_of(entries_v(t.entries@)),
        None => false,
    })
}

pub proof fn lemma_entries_stored_index(s: Seq<(String, TreeEntry)>, i: int)
    requires
        entries_stored(s),
        0 <= i < s.len(),
    ensures
        match s[i].1 {
            TreeEntry::Entry(_) => true,
            TreeEntry::Tree(sub) => tree_stored(sub),
        },
    decreases i,
{
    if i > 0 {
        lemma_entries_stored_index(s.drop_first(), i - 1);
        assert(s.drop_first()[i - 1] == s[i]);
    }
}

pub proof fn lemma_entries_wf_index(v: Seq<(Seq<char>, NodeV)>, i: int)
    requires
        entries_wf(v),
        0 <= i < v.len(),
    ensures
        node_wf(v[i].1),
    decreases i,
{
    if i > 0 {
        lemma_entries_wf_index(v.drop_first(), i - 1);
        assert(v.drop_first()[i - 1] == v[i]);
    }
}

impl TreeEntry {
    /// The mode string this node serializes under.
    pub fn get_mode(&self) -> (r: String)
        ensures
            r@ == node_mode(node_v(*self)),
    {
        match self {
            TreeEntry::Entry(e) => e.get_mode(),
            TreeEntry::Tree(_) => String::from_str("040000"),
        }
    }

    /// The object id this node is referenced by; a nested tree must have
    /// been stored first.
    pub fn get_oid(&self) -> (r: String)
        requires
            match *self {
                TreeEntry::Tree(t) => t.oid is Some,
                TreeEntry::Entry(_) => true,
            },
        ensures
            match *self {
                TreeEntry::Entry(e) => r == e.oid,
                TreeEntry::Tree(t) => t.oid == Some(r),
            },
    {
        match self {
            TreeEntry::Entry(e) => e.get_oid(),
            TreeEntry::Tree(t) => {
                match &t.oid {
                    Some(s) => s.clone(),
                    None => unreached(),
                }
            },
        }
    }

    /// Whether this node is a nested `Tree`: a subdirectory built here, as
    /// opposed to a leaf `Entry` (which may still reference a directory
    /// object by hash through its kind).
    pub fn is_tree(&self) -> (r: bool)
        ensures
            r == (match *self {
                TreeEntry::Entry(_) => false,
                TreeEntry::Tree(_) => true,
            }),
    {
        match self {
            TreeEntry::Entry(_) => false,
            TreeEntry::Tree(_) => true,
        }
    }
}

// ---------------------------------------------------------------------------
// Executable comparison and sorting
// ---------------------------------------------------------------------------

proof fn lemma_bytes_lt_skip(a: Seq<u8>, b: Seq<u8>, i: int)
    requires
        0 <= i <= a.len(),
        i <= b.len(),
        forall|k: int| 0 <= k < i ==> a[k] == b[k],
    ensures
        bytes_lt(a, b) == bytes_lt(a.skip(i), b.skip(i)),
    decreases i,
{
    if i > 0 {
        assert(a[0] == b[0]);
        assert(a.len() > 0 && b.len() > 0);
        lemma_bytes_lt_skip(a.drop_first(), b.drop_first(), i - 1);
        assert(a.drop_first().skip(i - 1) =~= a.skip(i));
        assert(b.drop_first().skip(i - 1) =~= b.skip(i));
    } else {
        assert(a.skip(0) =~= a);
        assert(b.skip(0) =~= b);
    }
}

/// Three-way byte-wise comparison.
fn bytes_cmp(a: &Vec<u8>, b: &Vec<u8>) -> (r: i8)
    ensures
        (r == -1) == bytes_lt(a@, b@),
        (r == 1) == bytes_lt(b@, a@),
        (r == 0) == (a@ == b@),
{
    let n = if a.len() < b.len() {
        a.len()
    } else {
        b.len()
    };
    let mut i: usize = 0;
    while i < n
        invariant
            i <= n,
            n == if a@.len() < b@.len() {
                a@.len()
            } else {
                b@.len()
            },
            forall|k: int| 0 <= k < i ==> a@[k] == b@[k],
        decreases n - i,
    {
        if a[i] < b[i] {
            proof {
                lemma_bytes_lt_skip(a@, b@, i as int);
                lemma_bytes_lt_skip(b@, a@, i as int);
                assert(bytes_lt(a@.skip(i as int), b@.skip(i as int)));
                assert(!bytes_lt(b@.skip(i as int), a@.skip(i as int)));
                assert(a@[i as int] != b@[i as int]);
            }
            return -1;
        }
        if a[i] > b[i] {
            proof {
                lemma_bytes_lt_skip(a@, b@, i as int);
                lemma_bytes_lt_skip(b@, a@, i as int);
                assert(!bytes_lt(a@.skip(i as int), b@.skip(i as int)));
                assert(bytes_lt(b@.skip(i as int), a@.skip(i as int)));
                assert(a@[i as int] != b@[i as int]);
            }
            return 1;
        }
        i += 1;
    }
    proof {
        lemma_bytes_lt_skip(a@, b@, n as int);
        lemma_bytes_lt_skip(b@, a@, n as int);
    }
    if a.len() < b.len() {
        proof {
            assert(a@.skip(n as int) =~= Seq::<u8>::empty());
            assert(b@.skip(n as int).len() > 0);
        }
        -1
    } else if a.len() > b.len() {
        proof {
            assert(b@.skip(n as int) =~= Seq::<u8>::empty());
            assert(a@.skip(n as int).len() > 0);
        }
        1
    } else {
        proof {
            assert(a@ =~= b@);
            lemma_bytes_lt_asymm(a@, a@);
        }
        0
    }
}

fn stat_rank_exec(s: FileStat) -> (r: u8)
    ensures
        r as int == stat_rank(s),
{
    match s {
        FileStat::Dir => 0,
        FileStat::File => 1,
        FileStat::Executable => 2,
    }
}

/// Whether `a` sorts at or before `b` in the entry order.
fn entry_le_exec(a: &Entry, b: &Entry) -> (r: bool)
    ensures
        r == entry_le(entry_v(*a), entry_v(*b)),
{
    let an = a.name.as_str().as_bytes_vec();
    let bn = b.name.as_str().as_bytes_vec();
    let c = bytes_cmp(&an, &bn);
    if c != 0 {
        proof {
            if an@ == bn@ {
                lemma_bytes_lt_asymm(an@, bn@);
            }
        }
        return c == -1;
    }
    let ao = a.oid.as_str().as_bytes_vec();
    let bo = b.oid.as_str().as_bytes_vec();
    let c2 = bytes_cmp(&ao, &bo);
    if c2 != 0 {
        return c2 == -1;
    }
    stat_rank_exec(a.stat) <= stat_rank_exec(b.stat)
}

/// Sort entries by name (byte-wise), with id and kind breaking ties: simple
/// insertion sort, enough for the entry lists a snapshot holds.
fn sort_entries(entries: &Vec<Entry>) -> (r: Vec<Entry>)
    ensures
        vstd::relations::sorted_by(entries_dv(r@), entry_leq()),
        entries_dv(r@).to_multiset() == entries_dv(entries@).to_multiset(),
        (forall|i: int| 0 <= i < entries@.len() ==> is_oid_chars(#[trigger] entries@[i].oid@))
            ==> (forall|i: int| 0 <= i < r@.len() ==> is_oid_chars(#[trigger] r@[i].oid@)),
{
    proof {
        broadcast use vstd::seq_lib::group_to_multiset_ensures;

        lemma_entry_le_total();
    }
    let ghost good = forall|i: int|
        0 <= i < entries@.len() ==> is_oid_chars(#[trigger] entries@[i].oid@);
    let mut out: Vec<Entry> = Vec::new();
    let mut i: usize = 0;
    while i < entries.len()
        invariant
            i <= entries@.len(),
            vstd::relations::sorted_by(entries_dv(out@), entry_leq()),
            entries_dv(out@).to_multiset() == entries_dv(entries@.subrange(0, i as int)).to_multiset(),
            good == (forall|k: int|
                0 <= k < entries@.len() ==> is_oid_chars(#[trigger] entries@[k].oid@)),
            good ==> (forall|k: int| 0 <= k < out@.len() ==> is_oid_chars(#[trigger] out@[k].oid@)),
        decreases entries@.len() - i,
    {
        proof {
            broadcast use vstd::seq_lib::group_to_multiset_ensures;

            lemma_entry_le_total();
        }
        let e = entries[i].duplicate();
        let mut j: usize = 0;
        while j < out.len() && entry_le_exec(&out[j], &e)
            invariant
                j <= out@.len(),
                forall|k: int|
                    0 <= k < j ==> entry_le(entry_v(#[trigger] out@[k]), entry_v(e)),
            decreases out@.len() - j,
        {
            j += 1;
        }
        proof {
            let leq = entry_leq();
            if j < out@.len() {
                assert(!entry_le(entry_v(out@[j as int]), entry_v(e)));
                assert(leq(entry_v(out@[j as int]), entry_v(e)) || leq(
                    entry_v(e),
                    entry_v(out@[j as int]),
                ));
            }
        }
        let ghost old_out = out@;
        out.insert(j, e);
        proof {
            let leq = entry_leq();
            let dv_old = entries_dv(old_out);
            let dv_new = entries_dv(out@);
            assert(dv_new =~= dv_old.insert(j as int, entry_v(e))) by {
                assert forall|k: int| 0 <= k < dv_new.len() implies dv_new[k] == dv_old.insert(
                    j as int,
                    entry_v(e),
                )[k] by {
                    if k < j {
                        assert(out@[k] == old_out[k]);
                    } else if k == j {
                        assert(out@[k] == e);
                    } else {
                        assert(out@[k] == old_out[k - 1]);
                    }
                }
            }
            assert(vstd::relations::sorted_by(dv_new, leq)) by {
                assert forall|p: int, q: int| 0 <= p < q < dv_new.len() implies leq(
                    dv_new[p],
                    dv_new[q],
                ) by {
                    let jj = j as int;
                    if q < jj {
                    } else if p < jj && q == jj {
                        assert(dv_new[p] == dv_old[p]);
                        assert(leq(entry_v(old_out[p]), entry_v(e)));
                    } else if p < jj && q > jj {
                        assert(leq(dv_old[p], dv_old[q - 1]));
                    } else if p == jj {
                        // e goes before everything from j on
                        assert(dv_new[q] == dv_old[q - 1]);
                        if jj < dv_old.len() {
                            assert(leq(entry_v(e), dv_old[jj]));
                            if q - 1 > jj {
                                assert(leq(dv_old[jj], dv_old[q - 1]));
                                lemma_entry_le_trans(entry_v(e), dv_old[jj], dv_old[q - 1]);
                            }
                        }
                    } else {
                        assert(leq(dv_old[p - 1], dv_old[q - 1]));
                    }
                }
            }
            // multiset bookkeeping
            assert(e == entries@[i as int]);
            assert(entries_dv(entries@.subrange(0, i as int + 1)) =~= entries_dv(
                entries@.subrange(0, i as int),
            ).push(entry_v(entries@[i as int])));
            assert(dv_old.insert(j as int, entry_v(e)).to_multiset() == dv_old.to_multiset().insert(
                entry_v(e),
            ));
            assert(entries_dv(entries@.subrange(0, i as int)).push(
                entry_v(entries@[i as int]),
            ).to_multiset() == entries_dv(entries@.subrange(0, i as int)).to_multiset().insert(
                entry_v(entries@[i as int]),
            ));
        }
        i += 1;
    }
    proof {
        assert(entries@.subrange(0, entries@.len() as int) =~= entries@);
    }
    out
}

/// Split a path into its components, refusing empty ones: an empty path,
/// a leading or trailing slash, or a doubled slash is a malformed input.
fn split_path_exec(name: &String) -> (r: Result<Vec<String>, RitError>)
    ensures
        r matches Ok(v) ==> v.deep_view() == split_path(name@) && !has_empty_component(
            split_path(name@),
        ),
        r matches Err(e) ==> e == RitError::InvalidInput && has_empty_component(split_path(name@)),
{
    let n = name.as_str().unicode_len();
    let mut comps: Vec<String> = Vec::new();
    let mut start: usize = 0;
    let mut i: usize = 0;
    proof {
        assert(name@.subrange(0, n as int) =~= name@);
        assert(comps.deep_view() =~= Seq::<Seq<char>>::empty());
        assert(Seq::<Seq<char>>::empty() + split_path(name@) =~= split_path(name@));
    }
    while i < n
        invariant
            start <= i <= n,
            n == name@.len(),
            forall|j: int| start <= j < i ==> name@[j] != '/',
            split_path(name@) =~= comps.deep_view() + split_path(
                name@.subrange(start as int, n as int),
            ),
            forall|k: int| 0 <= k < comps@.len() ==> (#[trigger] comps.deep_view()[k]).len() > 0,
        decreases n - i,
    {
        if name.as_str().get_char(i) == '/' {
            proof {
                let tail = name@.subrange(start as int, n as int);
                assert(tail[i - start] == '/');
                assert forall|j: int| 0 <= j < i - start implies tail[j] != '/' by {
                    assert(tail[j] == name@[start + j]);
                }
                lemma_split_path_step(tail, i - start);
                assert(tail.subrange(0, i - start) =~= name@.subrange(start as int, i as int));
                assert(tail.subrange(i - start + 1, tail.len() as int) =~= name@.subrange(
                    i as int + 1,
                    n as int,
                ));
            }
            if i == start {
                proof {
                    let idx = comps@.len() as int;
                    assert(split_path(name@)[idx].len() == 0);
                }
                return Err(RitError::InvalidInput);
            }
            let comp = name.as_str().substring_char(start, i).to_owned();
            let ghost old_comps = comps.deep_view();
            comps.push(comp);
            proof {
                assert(comps.deep_view() =~= old_comps.push(comp@));
                assert(split_path(name@) =~= comps.deep_view() + split_path(
                    name@.subrange(i as int + 1, n as int),
                ));
            }
            start = i + 1;
        }
        i += 1;
    }
    proof {
        let tail = name@.subrange(start as int, n as int);
        lemma_split_path_noslash(tail);
    }
    if start == n {
        proof {
            let idx = comps@.len() as int;
            assert(split_path(name@)[idx].len() == 0);
        }
        return Err(RitError::InvalidInput);
    }
    let comp = name.as_str().substring_char(start, n).to_owned();
    let ghost old_comps = comps.deep_view();
    comps.push(comp);
    proof {
        assert(comps.deep_view() =~= old_comps.push(comp@));
        assert(split_path(name@) =~= comps.deep_view());
        assert forall|k: int|
            0 <= k < split_path(name@).len() implies (#[trigger] split_path(name@)[k]).len()
            > 0 by {
            assert(split_path(name@)[k] == comps.deep_view()[k]);
        }
    }
    Ok(comps)
}

proof fn lemma_fresh_node_wf(comps: Seq<Seq<char>>, depth: int, entry: EntryV)
    requires
        0 <= depth < comps.len(),
        is_oid_chars(entry.oid),
    ensures
        node_wf(fresh_node(comps, depth, entry)),
    decreases comps.len() - depth,
{
    if depth < comps.len() - 1 {
        lemma_fresh_node_wf(comps, depth + 1, entry);
        let ss = seq![(comps[depth + 1], fresh_node(comps, depth + 1, entry))];
        assert(ss[0].1 == fresh_node(comps, depth + 1, entry));
        assert(node_wf(ss[0].1));
        assert(ss.drop_first() =~= Seq::<(Seq<char>, NodeV)>::empty());
        assert(entries_wf(ss.drop_first()));
        assert(entries_wf(ss));
    }
}

/// Inserting into a level whose first entries all sort before the key and
/// miss it only rearranges around them.
proof fn lemma_insert_at_skip(
    s: Seq<(Seq<char>, NodeV)>,
    comps: Seq<Seq<char>>,
    depth: int,
    entry: EntryV,
    j: int,
)
    requires
        0 <= depth < comps.len(),
        0 <= j <= s.len(),
        forall|k: int|
            0 <= k < j ==> (#[trigger] s[k].0) != comps[depth] && !bytes_lt(
                encode_utf8(comps[depth]),
                encode_utf8(s[k].0),
            ),
    ensures
        insert_at(s, comps, depth, entry) == (match insert_at(
            s.subrange(j, s.len() as int),
            comps,
            depth,
            entry,
        ) {
            None => None::<Seq<(Seq<char>, NodeV)>>,
            Some(es) => Some(s.subrange(0, j) + es),
        }),
    decreases j,
{
    if j == 0 {
        assert(s.subrange(0, s.len() as int) =~= s);
        match insert_at(s, comps, depth, entry) {
            None => {},
            Some(es) => {
                assert(s.subrange(0, 0) + es =~= es);
            },
        }
    } else {
        let s1 = s.drop_first();
        assert forall|k: int|
            0 <= k < j - 1 implies (#[trigger] s1[k].0) != comps[depth] && !bytes_lt(
                encode_utf8(comps[depth]),
                encode_utf8(s1[k].0),
            ) by {
            assert(s1[k] == s[k + 1]);
        }
        lemma_insert_at_skip(s1, comps, depth, entry, j - 1);
        assert(s1.subrange(j - 1, s1.len() as int) =~= s.subrange(j, s.len() as int));
        match insert_at(s.subrange(j, s.len() as int), comps, depth, entry) {
            None => {},
            Some(es) => {
                assert(seq![s[0]] + (s1.subrange(0, j - 1) + es) =~= s.subrange(0, j) + es);
            },
        }
    }
}

/// Insertion keeps a level well formed: names stay strictly sorted and
/// every new node is well formed.
pub proof fn lemma_insert_at_wf(
    s: Seq<(Seq<char>, NodeV)>,
    comps: Seq<Seq<char>>,
    depth: int,
    entry: EntryV,
)
    requires
        entries_wf(s),
        0 <= depth < comps.len(),
        is_oid_chars(entry.oid),
    ensures
        match insert_at(s, comps, depth, entry) {
            Some(es) => entries_wf(es) && es.len() >= 1 && (es[0].0 == comps[depth] || (s.len() > 0
                && es[0].0 == s[0].0)),
            None => true,
        },
    decreases comps.len() - depth, s.len(),
{
    let key = comps[depth];
    let ek = encode_utf8(key);
    if s.len() == 0 || bytes_lt(ek, encode_utf8(s[0].0)) {
        lemma_fresh_node_wf(comps, depth, entry);
        let es = seq![(key, fresh_node(comps, depth, entry))] + s;
        assert(es.drop_first() =~= s);
        assert(entries_wf(es));
    } else if s[0].0 == key {
        assert(node_wf(s[0].1));
        if depth < comps.len() - 1 {
            match s[0].1 {
                NodeV::Leaf { .. } => {},
                NodeV::Dir { entries } => {
                    assert(entries_wf(entries));
                    lemma_insert_at_wf(entries, comps, depth + 1, entry);
                    match insert_at(entries, comps, depth + 1, entry) {
                        None => {},
                        Some(es2) => {
                            let es = seq![(key, NodeV::Dir { entries: es2 })] + s.drop_first();
                            assert(es.drop_first() =~= s.drop_first());
                            assert(node_wf(es[0].1));
                            if s.len() > 1 {
                                assert(es[1] == s[1]);
                                assert(encode_utf8(es[0].0) == encode_utf8(s[0].0));
                                assert(bytes_lt(encode_utf8(es[0].0), encode_utf8(es[1].0)));
                            }
                            assert(entries_wf(es));
                        },
                    }
                },
            }
        }
    } else {
        lemma_insert_at_wf(s.drop_first(), comps, depth, entry);
        match insert_at(s.drop_first(), comps, depth, entry) {
            None => {},
            Some(es1) => {
                let es = seq![s[0]] + es1;
                assert(es.drop_first() =~= es1);
                if es1[0].0 == key {
                    lemma_bytes_lt_connected(encode_utf8(s[0].0), ek);
                    if encode_utf8(s[0].0) == ek {
                        lemma_encode_utf8_injective(s[0].0, key);
                    }
                } else {
                    assert(s.len() > 1 && es1[0].0 == s.drop_first()[0].0);
                    assert(s.drop_first()[0] == s[1]);
                }
                assert(bytes_lt(encode_utf8(s[0].0), encode_utf8(es1[0].0)));
                assert(entries_wf(es));
            },
        }
    }
}

impl Tree {
    /// Create a new, empty `Tree`.
    pub fn new() -> (r: Tree)
        ensures
            r.entries@.len() == 0,
            r.oid is None,
            entries_v(r.entries@) == Seq::<(Seq<char>, NodeV)>::empty(),
    {
        Tree { entries: Vec::new(), oid: None }
    }

    /// The chain of fresh nodes that a missing path suffix creates.
    fn make_fresh(comps: &Vec<String>, depth: usize, entry: Entry) -> (r: TreeEntry)
        requires
            depth < comps@.len(),
        ensures
            node_v(r) == fresh_node(comps.deep_view(), depth as int, entry_v(entry)),
        decreases comps@.len() - depth,
    {
        let n = comps.len();
        if depth >= n - 1 {
            TreeEntry::Entry(entry)
        } else {
            let sub_node = Self::make_fresh(comps, depth + 1, entry);
            let key = comps[depth + 1].clone();
            let mut es: Vec<(String, TreeEntry)> = Vec::new();
            es.push((key, sub_node));
            let t = Tree { entries: es, oid: None };
            proof {
                let dv = comps.deep_view();
                lemma_entries_v_props(t.entries@);
                assert(t.entries@[0].0@ == dv[depth as int + 1]);
                assert(node_v(t.entries@[0].1) == fresh_node(dv, depth as int + 1, entry_v(entry)));
                assert(entries_v(t.entries@)[0] == (
                    dv[depth as int + 1],
                    fresh_node(dv, depth as int + 1, entry_v(entry)),
                ));
                assert(entries_v(t.entries@) =~= seq![
                    (dv[depth as int + 1], fresh_node(dv, depth as int + 1, entry_v(entry))),
                ]);
            }
            TreeEntry::Tree(t)
        }
    }

    /// Find where `key` stands in this sorted level: the index of the entry
    /// with that name, or where it would be inserted.
    fn find_slot(entries: &Vec<(String, TreeEntry)>, key: &String) -> (r: (usize, bool))
        ensures
            ({
                let (pos, found) = r;
                let v = entries_v(entries@);
                let ek = encode_utf8(key@);
                &&& pos <= entries@.len()
                &&& (forall|k: int|
                    0 <= k < pos ==> (#[trigger] v[k].0) != key@ && !bytes_lt(
                        ek,
                        encode_utf8(v[k].0),
                    ))
                &&& (found ==> pos < v.len() && v[pos as int].0 == key@)
                &&& (!found ==> pos == v.len() || bytes_lt(ek, encode_utf8(v[pos as int].0)))
            }),
    {
        proof {
            lemma_entries_v_props(entries@);
        }
        let kb = key.as_str().as_bytes_vec();
        let mut pos: usize = 0;
        while pos < entries.len()
            invariant
                pos <= entries@.len(),
                kb@ == encode_utf8(key@),
                forall|k: int|
                    0 <= k < pos ==> (#[trigger] entries_v(entries@)[k].0) != key@ && !bytes_lt(
                        encode_utf8(key@),
                        encode_utf8(entries_v(entries@)[k].0),
                    ),
            decreases entries@.len() - pos,
        {
            proof {
                lemma_entries_v_props(entries@);
            }
            let nb = entries[pos].0.as_str().as_bytes_vec();
            let c = bytes_cmp(&kb, &nb);
            if c == 0 {
                proof {
                    lemma_encode_utf8_injective(key@, entries@[pos as int].0@);
                }
                return (pos, true);
            }
            if c == -1 {
                return (pos, false);
            }
            proof {
                lemma_bytes_lt_asymm(kb@, nb@);
                if key@ == entries@[pos as int].0@ {
                    lemma_bytes_lt_asymm(nb@, nb@);
                }
            }
            pos += 1;
        }
        (pos, false)
    }

    /// Add an `Entry` to a `Tree` at the given path components, creating
    /// missing levels and keeping each level sorted by name. A name
    /// collision is a fatal input contract violation.
    fn add_entry(&mut self, comps: &Vec<String>, depth: usize, entry: Entry) -> (r: Result<
        (),
        RitError,
    >)
        requires
            depth < comps@.len(),
        ensures
            ({
                let spec_r = insert_at(
                    entries_v(old(self).entries@),
                    comps.deep_view(),
                    depth as int,
                    entry_v(entry),
                );
                match r {
                    Ok(_) => spec_r matches Some(es) && entries_v(final(self).entries@) == es
                        && final(self).oid == old(self).oid,
                    Err(e) => e == RitError::InvalidInput && spec_r is None,
                }
            }),
        decreases comps@.len() - depth,
    {
        proof {
            lemma_entries_v_props(self.entries@);
            assert(comps.deep_view()[depth as int] == comps@[depth as int]@);
        }
        let key = &comps[depth];
        let (pos, found) = Self::find_slot(&self.entries, key);
        proof {
            lemma_insert_at_skip(
                entries_v(self.entries@),
                comps.deep_view(),
                depth as int,
                entry_v(entry),
                pos as int,
            );
        }
        let ghost v0 = entries_v(old(self).entries@);
        let ghost tail = v0.subrange(pos as int, v0.len() as int);
        if found {
            proof {
                assert(tail[0] == v0[pos as int]);
                assert(tail.len() > 0 && !bytes_lt(
                    encode_utf8(comps.deep_view()[depth as int]),
                    encode_utf8(tail[0].0),
                )) by {
                    lemma_bytes_lt_asymm(
                        encode_utf8(comps.deep_view()[depth as int]),
                        encode_utf8(comps.deep_view()[depth as int]),
                    );
                }
            }
            let n = comps.len();
            if depth >= n - 1 {
                return Err(RitError::InvalidInput);
            }
            let is_sub = match &self.entries[pos].1 {
                TreeEntry::Tree(_) => true,
                TreeEntry::Entry(_) => false,
            };
            if !is_sub {
                return Err(RitError::InvalidInput);
            }
            let (k, te) = self.entries.remove(pos);
            match te {
                TreeEntry::Tree(mut sub) => {
                    let ghost sub0 = sub;
                    match sub.add_entry(comps, depth + 1, entry) {
                        Ok(_) => {
                            self.entries.insert(pos, (k, TreeEntry::Tree(sub)));
                            proof {
                                lemma_entries_v_props(self.entries@);
                                lemma_entries_v_props(old(self).entries@);
                                let dv = comps.deep_view();
                                let es2 = insert_at(
                                    entries_v(sub0.entries@),
                                    dv,
                                    depth as int + 1,
                                    entry_v(entry),
                                )->Some_0;
                                assert(insert_at(tail, dv, depth as int, entry_v(entry)) == Some(
                                    seq![(dv[depth as int], NodeV::Dir { entries: es2 })]
                                        + tail.drop_first(),
                                ));
                                assert(entries_v(self.entries@) =~= v0.subrange(0, pos as int) + (
                                seq![(dv[depth as int], NodeV::Dir { entries: es2 })]
                                    + tail.drop_first())) by {
                                    assert forall|k2: int|
                                        0 <= k2 < self.entries@.len() implies entries_v(
                                        self.entries@,
                                    )[k2] == (v0.subrange(0, pos as int) + (seq![
                                        (dv[depth as int], NodeV::Dir { entries: es2 }),
                                    ] + tail.drop_first()))[k2] by {
                                        if k2 < pos {
                                            assert(self.entries@[k2] == old(self).entries@[k2]);
                                        } else if k2 == pos {
                                        } else {
                                            assert(self.entries@[k2] == old(self).entries@[k2]);
                                            assert(tail.drop_first()[k2 - pos - 1] == v0[k2]);
                                        }
                                    }
                                }
                            }
                            Ok(())
                        },
                        Err(e) => {
                            proof {
                                assert(insert_at(
                                    entries_v(old(self).entries@),
                                    comps.deep_view(),
                                    depth as int,
                                    entry_v(entry),
                                ) is None);
                            }
                            Err(e)
                        },
                    }
                },
                TreeEntry::Entry(_) => {
                    proof {
                        assert(false);
                    }
                    Err(RitError::InvalidInput)
                },
            }
        } else {
            let node = Self::make_fresh(comps, depth, entry);
            self.entries.insert(pos, (key.clone(), node));
            proof {
                lemma_entries_v_props(self.entries@);
                lemma_entries_v_props(old(self).entries@);
                let dv = comps.deep_view();
                assert(insert_at(tail, dv, depth as int, entry_v(entry)) == Some(
                    seq![(dv[depth as int], fresh_node(dv, depth as int, entry_v(entry)))] + tail,
                ));
                assert(entries_v(self.entries@) =~= v0.subrange(0, pos as int) + (seq![
                    (dv[depth as int], fresh_node(dv, depth as int, entry_v(entry))),
                ] + tail)) by {
                    assert forall|k2: int|
                        0 <= k2 < self.entries@.len() implies entries_v(self.entries@)[k2] == (
                    v0.subrange(0, pos as int) + (seq![
                        (dv[depth as int], fresh_node(dv, depth as int, entry_v(entry))),
                    ] + tail))[k2] by {
                        if k2 < pos {
                            assert(self.entries@[k2] == old(self).entries@[k2]);
                        } else if k2 == pos {
                        } else {
                            assert(self.entries@[k2] == old(self).entries@[k2 - 1]);
                            assert(tail[k2 - pos - 1] == v0[k2 - 1]);
                        }
                    }
                }
            }
            Ok(())
        }
    }

    /// Build a `Tree` from a list of entries. The entries are sorted first,
    /// so the same set of entries always builds the same tree, whatever
    /// order they arrive in.
    ///
    /// Fails with `InvalidInput` on a name collision (two entries reducing
    /// to the same key at one level, where at most one could stand), on a
    /// path with zero components, and - stricter than path normalization
    /// would be - on any path with an empty component, such as `a//b` or a
    /// leading or trailing slash.
    pub fn build(entries: Vec<Entry>) -> (r: Result<Tree, RitError>)
        requires
            forall|i: int| 0 <= i < entries@.len() ==> is_oid_chars(#[trigger] entries@[i].oid@),
        ensures
            r matches Ok(t) ==> (build_spec(entries_dv(entries@)) matches Some(es) && entries_v(
                t.entries@,
            ) == es && t.oid is None && entries_wf(es)),
            r matches Err(e) ==> e == RitError::InvalidInput && build_spec(
                entries_dv(entries@),
            ) is None,
    {
        proof {
            lemma_entry_le_total();
            entries_dv(entries@).lemma_sort_by_ensures(entry_leq());
            broadcast use vstd::seq_lib::group_to_multiset_ensures;

        }
        let sorted = sort_entries(&entries);
        proof {
            broadcast use vstd::seq_lib::group_to_multiset_ensures;

            lemma_entry_le_total();
            entries_dv(entries@).lemma_sort_by_ensures(entry_leq());
            lemma_sorted_unique(
                entries_dv(sorted@),
                entries_dv(entries@).sort_by(entry_leq()),
                entry_leq(),
            );
            assert(entries_dv(sorted@) == entries_dv(entries@).sort_by(entry_leq()));
            assert(entries_dv(sorted@).len() == entries_dv(sorted@).to_multiset().len());
            assert(entries_dv(entries@).len() == entries_dv(entries@).to_multiset().len());
            assert(entries_dv(sorted@).len() == entries_dv(entries@).len());
        }
        let ghost sv = entries_dv(sorted@);
        let mut root = Tree::new();
        let mut i: usize = 0;
        while i < sorted.len()
            invariant
                i <= sorted@.len(),
                sv == entries_dv(sorted@),
                sv.len() == entries_dv(entries@).len(),
                sv == entries_dv(entries@).sort_by(entry_leq()),
                forall|k: int| 0 <= k < sorted@.len() ==> is_oid_chars(#[trigger] sorted@[k].oid@),
                build_upto(sv, i as int) == Some(entries_v(root.entries@)),
                entries_wf(entries_v(root.entries@)),
                root.oid is None,
            decreases sorted@.len() - i,
        {
            let e = sorted[i].duplicate();
            proof {
                assert(entry_v(e) == sv[i as int]);
            }
            let name = e.get_name();
            match split_path_exec(&name) {
                Err(_) => {
                    proof {
                        assert(build_insert(entries_v(root.entries@), sv[i as int]) is None);
                        assert(build_upto(sv, i as int + 1) is None);
                        lemma_build_upto_none(sv, i as int + 1, sv.len() as int);
                    }
                    return Err(RitError::InvalidInput);
                },
                Ok(comps) => {
                    proof {
                        lemma_split_path_len(name@);
                    }
                    let ghost pre = entries_v(root.entries@);
                    match root.add_entry(&comps, 0, e) {
                        Ok(_) => {
                            proof {
                                lemma_insert_at_wf(pre, comps.deep_view(), 0, entry_v(e));
                                assert(build_insert(pre, sv[i as int]) == insert_at(
                                    pre,
                                    comps.deep_view(),
                                    0,
                                    entry_v(e),
                                ));
                                assert(build_upto(sv, i as int + 1) == Some(
                                    entries_v(root.entries@),
                                ));
                            }
                        },
                        Err(_) => {
                            proof {
                                assert(build_insert(pre, sv[i as int]) is None);
                                assert(build_upto(sv, i as int + 1) is None);
                                lemma_build_upto_none(sv, i as int + 1, sv.len() as int);
                            }
                            return Err(RitError::InvalidInput);
                        },
                    }
                },
            }
            i += 1;
        }
        Ok(root)
    }
}

/// Order-independence of tree identity: two entry lists with the same
/// entries, in any input orders, build the very same tree, and so the same
/// root hash.
pub proof fn lemma_build_order_independent(e1: Seq<EntryV>, e2: Seq<EntryV>)
    requires
        e1.to_multiset() == e2.to_multiset(),
    ensures
        build_spec(e1) == build_spec(e2),
{
    broadcast use vstd::seq_lib::group_to_multiset_ensures;

    lemma_entry_le_total();
    e1.lemma_sort_by_ensures(entry_leq());
    e2.lemma_sort_by_ensures(entry_leq());
    lemma_sorted_unique(e1.sort_by(entry_leq()), e2.sort_by(entry_leq()), entry_leq());
    assert(e1.len() == e1.to_multiset().len());
    assert(e2.len() == e2.to_multiset().len());
}

proof fn lemma_chars_below_128_ascii(s: Seq<char>)
    requires
        forall|i: int| 0 <= i < s.len() ==> (#[trigger] s[i] as u32) < 128,
    ensures
        vstd::utf8::is_ascii_chars(s),
{
    assert forall|i: int| 0 <= i < s.len() implies '\0' <= #[trigger] s[i] <= '\u{7f}' by {
        let u = s[i] as u32;
        vstd::utf8::char_u32_cast(s[i], u);
        assert((u as char) == s[i]);
    }
}

/// Nesting: building a tree from the two entries `dir/a.txt` and
/// `dir/sub/b.txt` yields a root with exactly one entry, named `dir`, a
/// subdirectory; its tree holds the leaf `a.txt` and the subdirectory
/// `sub`, whose tree holds exactly the leaf `b.txt` - for any two
/// referenced hashes.
pub proof fn lemma_nesting_example(h1: Seq<char>, h2: Seq<char>)
    ensures
        ({
            let n1 = seq!['d', 'i', 'r', '/', 'a', '.', 't', 'x', 't'];
            let n2 = seq!['d', 'i', 'r', '/', 's', 'u', 'b', '/', 'b', '.', 't', 'x', 't'];
            let e1 = EntryV { name: n1, oid: h1, stat: FileStat::File };
            let e2 = EntryV { name: n2, oid: h2, stat: FileStat::File };
            build_spec(seq![e1, e2]) == Some(
                seq![
                    (
                        seq!['d', 'i', 'r'],
                        NodeV::Dir {
                            entries: seq![
                                (
                                    seq!['a', '.', 't', 'x', 't'],
                                    NodeV::Leaf { entry: e1 },
                                ),
                                (
                                    seq!['s', 'u', 'b'],
                                    NodeV::Dir {
                                        entries: seq![
                                            (
                                                seq!['b', '.', 't', 'x', 't'],
                                                NodeV::Leaf { entry: e2 },
                                            ),
                                        ],
                                    },
                                ),
                            ],
                        },
                    ),
                ],
            )
        }),
{
    let n1 = seq!['d', 'i', 'r', '/', 'a', '.', 't', 'x', 't'];
    let n2 = seq!['d', 'i', 'r', '/', 's', 'u', 'b', '/', 'b', '.', 't', 'x', 't'];
    let e1 = EntryV { name: n1, oid: h1, stat: FileStat::File };
    let e2 = EntryV { name: n2, oid: h2, stat: FileStat::File };
    let input = seq![e1, e2];
    let leq = entry_leq();

    // the two names are ASCII, so their encodings are themselves
    assert forall|i: int| 0 <= i < n1.len() implies (#[trigger] n1[i] as u32) < 128 by {
        assert(i == 0 || i == 1 || i == 2 || i == 3 || i == 4 || i == 5 || i == 6 || i == 7 || i
            == 8);
    }
    assert forall|i: int| 0 <= i < n2.len() implies (#[trigger] n2[i] as u32) < 128 by {
        assert(i == 0 || i == 1 || i == 2 || i == 3 || i == 4 || i == 5 || i == 6 || i == 7 || i
            == 8 || i == 9 || i == 10 || i == 11 || i == 12);
    }
    lemma_chars_below_128_ascii(n1);
    lemma_chars_below_128_ascii(n2);
    vstd::utf8::is_ascii_chars_encode_utf8(n1);
    vstd::utf8::is_ascii_chars_encode_utf8(n2);
    let b1 = encode_utf8(n1);
    let b2 = encode_utf8(n2);

    // e1 sorts before e2: the names agree on "dir/" and then 'a' < 's'
    assert forall|k: int| 0 <= k < 4 implies b1[k] == b2[k] by {
        assert(k == 0 || k == 1 || k == 2 || k == 3);
    }
    lemma_bytes_lt_skip(b1, b2, 4);
    assert(b1.skip(4)[0] == 'a' as u8);
    assert(b2.skip(4)[0] == 's' as u8);
    assert(bytes_lt(b1.skip(4), b2.skip(4)));
    assert(bytes_lt(b1, b2));
    assert(b1 != b2);
    assert(entry_le(e1, e2));

    // sorting leaves the input as it stands
    lemma_entry_le_total();
    input.lemma_sort_by_ensures(leq);
    assert(vstd::relations::sorted_by(input, leq)) by {
        assert forall|p: int, q: int| 0 <= p < q < input.len() implies leq(input[p], input[q]) by {
            assert(p == 0 && q == 1);
        }
    }
    lemma_sorted_unique(input.sort_by(leq), input, leq);
    assert(input.sort_by(leq) == input);

    // dir/a.txt splits into [dir, a.txt]
    let dir = seq!['d', 'i', 'r'];
    let a_txt = seq!['a', '.', 't', 'x', 't'];
    let sub = seq!['s', 'u', 'b'];
    let b_txt = seq!['b', '.', 't', 'x', 't'];
    let c1 = seq![dir, a_txt];
    assert forall|j: int| 0 <= j < 3 implies n1[j] != '/' by {
        assert(j == 0 || j == 1 || j == 2);
    }
    lemma_split_path_step(n1, 3);
    let t1 = n1.subrange(4, 9);
    assert(t1 =~= a_txt);
    assert forall|j: int| 0 <= j < t1.len() implies t1[j] != '/' by {
        assert(j == 0 || j == 1 || j == 2 || j == 3 || j == 4);
    }
    lemma_split_path_noslash(t1);
    assert(n1.subrange(0, 3) =~= dir);
    assert(split_path(n1) =~= c1);
    assert forall|i: int| 0 <= i < c1.len() implies (#[trigger] c1[i]).len() != 0 by {
        assert(i == 0 || i == 1);
    }
    assert(!has_empty_component(c1));

    // dir/sub/b.txt splits into [dir, sub, b.txt]
    let c2 = seq![dir, sub, b_txt];
    assert forall|j: int| 0 <= j < 3 implies n2[j] != '/' by {
        assert(j == 0 || j == 1 || j == 2);
    }
    lemma_split_path_step(n2, 3);
    let m = n2.subrange(4, 13);
    assert(m[3] == '/');
    assert forall|j: int| 0 <= j < 3 implies m[j] != '/' by {
        assert(j == 0 || j == 1 || j == 2);
    }
    lemma_split_path_step(m, 3);
    let m2 = m.subrange(4, 9);
    assert(m2 =~= b_txt);
    assert forall|j: int| 0 <= j < m2.len() implies m2[j] != '/' by {
        assert(j == 0 || j == 1 || j == 2 || j == 3 || j == 4);
    }
    lemma_split_path_noslash(m2);
    assert(m.subrange(0, 3) =~= sub);
    assert(n2.subrange(0, 3) =~= dir);
    assert(split_path(n2) =~= c2);
    assert forall|i: int| 0 <= i < c2.len() implies (#[trigger] c2[i]).len() != 0 by {
        assert(i == 0 || i == 1 || i == 2);
    }
    assert(!has_empty_component(c2));

    // inserting dir/a.txt into the empty root creates dir with the leaf
    let leaf1 = NodeV::Leaf { entry: e1 };
    let inner1 = seq![(a_txt, leaf1)];
    let lvl1 = seq![(dir, NodeV::Dir { entries: inner1 })];
    assert(fresh_node(c1, 1, e1) == leaf1);
    assert(fresh_node(c1, 0, e1) == NodeV::Dir { entries: seq![(c1[1], fresh_node(c1, 1, e1))] });
    assert(seq![(c1[1], fresh_node(c1, 1, e1))] =~= inner1);
    assert(insert_at(Seq::<(Seq<char>, NodeV)>::empty(), c1, 0, e1) == Some(
        seq![(c1[0], fresh_node(c1, 0, e1))],
    ));
    assert(seq![(c1[0], fresh_node(c1, 0, e1))] =~= lvl1);
    assert(build_insert(Seq::<(Seq<char>, NodeV)>::empty(), e1) == Some(lvl1));
    assert(build_upto(input, 0) == Some(Seq::<(Seq<char>, NodeV)>::empty()));
    assert(build_upto(input, 1) == Some(lvl1));

    // inserting dir/sub/b.txt descends into dir and adds sub after a.txt
    let leaf2 = NodeV::Leaf { entry: e2 };
    let node_sub = NodeV::Dir { entries: seq![(b_txt, leaf2)] };
    let inner2 = seq![(a_txt, leaf1), (sub, node_sub)];
    let lvl2 = seq![(dir, NodeV::Dir { entries: inner2 })];

    // at the root level the key "dir" is already taken by the directory
    let ek = encode_utf8(dir);
    lemma_bytes_lt_asymm(ek, encode_utf8(lvl1[0].0));
    assert(lvl1[0].0 == c2[0]);
    // one level down, "sub" is not "a.txt" and does not sort before it
    assert forall|i: int| 0 <= i < sub.len() implies (#[trigger] sub[i] as u32) < 128 by {
        assert(i == 0 || i == 1 || i == 2);
    }
    lemma_chars_below_128_ascii(sub);
    assert forall|i: int| 0 <= i < a_txt.len() implies (#[trigger] a_txt[i] as u32) < 128 by {
        assert(i == 0 || i == 1 || i == 2 || i == 3 || i == 4);
    }
    lemma_chars_below_128_ascii(a_txt);
    vstd::utf8::is_ascii_chars_encode_utf8(sub);
    vstd::utf8::is_ascii_chars_encode_utf8(a_txt);
    assert(encode_utf8(sub)[0] == 's' as u8);
    assert(encode_utf8(a_txt)[0] == 'a' as u8);
    assert(!bytes_lt(encode_utf8(sub), encode_utf8(a_txt)));
    assert(inner1[0].0 != c2[1]);

    assert(inner1.drop_first() =~= Seq::<(Seq<char>, NodeV)>::empty());
    assert(fresh_node(c2, 2, e2) == leaf2);
    assert(fresh_node(c2, 1, e2) == NodeV::Dir { entries: seq![(c2[2], fresh_node(c2, 2, e2))] });
    assert(seq![(c2[2], fresh_node(c2, 2, e2))] =~= seq![(b_txt, leaf2)]);
    assert(fresh_node(c2, 1, e2) == node_sub);
    assert(insert_at(Seq::<(Seq<char>, NodeV)>::empty(), c2, 1, e2) == Some(
        seq![(c2[1], fresh_node(c2, 1, e2))],
    ));
    assert(seq![(c2[1], fresh_node(c2, 1, e2))] =~= seq![(sub, node_sub)]);
    assert(insert_at(inner1, c2, 1, e2) == Some(seq![inner1[0]] + seq![(sub, node_sub)]));
    assert(seq![inner1[0]] + seq![(sub, node_sub)] =~= inner2);
    assert(lvl1.drop_first() =~= Seq::<(Seq<char>, NodeV)>::empty());
    assert(insert_at(lvl1, c2, 0, e2) == Some(
        seq![(c2[0], NodeV::Dir { entries: inner2 })] + lvl1.drop_first(),
    ));
    assert(seq![(c2[0], NodeV::Dir { entries: inner2 })] + lvl1.drop_first() =~= lvl2);
    assert(build_insert(lvl1, e2) == Some(lvl2));
    assert(build_upto(input, 2) == Some(lvl2));
    assert(build_spec(input) == Some(lvl2));
}

// ---------------------------------------------------------------------------
// Serialization and postorder storage
// ---------------------------------------------------------------------------

pub proof fn lemma_entries_payload_concat(a: Seq<(Seq<char>, NodeV)>, b: Seq<(Seq<char>, NodeV)>)
    ensures
        entries_payload(a + b) == entries_payload(a) + entries_payload(b),
    decreases a.len(),
{
    if a.len() == 0 {
        assert(a + b =~= b);
        assert(entries_payload(a) + entries_payload(b) =~= entries_payload(b));
    } else {
        assert((a + b).drop_first() =~= a.drop_first() + b);
        assert((a + b)[0] == a[0]);
        lemma_entries_payload_concat(a.drop_first(), b);
        assert(entries_payload(a + b) =~= entries_payload(a) + entries_payload(b));
    }
}

proof fn lemma_entries_payload_one(x: (Seq<char>, NodeV))
    ensures
        entries_payload(seq![x]) == entry_line(x.0, x.1),
{
    let s = seq![x];
    assert(s.drop_first() =~= Seq::<(Seq<char>, NodeV)>::empty());
    assert(entry_line(x.0, x.1) + entries_payload(s.drop_first()) =~= entry_line(x.0, x.1));
}

proof fn lemma_entries_stored_push(s: Seq<(String, TreeEntry)>, x: (String, TreeEntry))
    requires
        entries_stored(s),
        match x.1 {
            TreeEntry::Entry(_) => true,
            TreeEntry::Tree(sub) => tree_stored(sub),
        },
    ensures
        entries_stored(s.push(x)),
    decreases s.len(),
{
    if s.len() == 0 {
        assert(s.push(x)[0] == x);
        assert(s.push(x).drop_first() =~= Seq::<(String, TreeEntry)>::empty());
        assert(entries_stored(s.push(x).drop_first()));
        assert(entries_stored(s.push(x)));
    } else {
        lemma_entries_stored_push(s.drop_first(), x);
        assert(s.push(x)[0] == s[0]);
        assert(s.push(x).drop_first() =~= s.drop_first().push(x));
        assert(entries_stored(s.push(x).drop_first()));
        assert(entries_stored(s.push(x)));
    }
}

/// The canonical payloads of every nested tree under these entries, children
/// before parents.
pub open spec fn postorder_payloads(s: Seq<(Seq<char>, NodeV)>) -> Seq<Seq<u8>>
    decreases s,
{
    if s.len() == 0 {
        Seq::<Seq<u8>>::empty()
    } else {
        (match s[0].1 {
            NodeV::Leaf { .. } => Seq::<Seq<u8>>::empty(),
            NodeV::Dir { entries } => postorder_payloads(entries) + seq![entries_payload(entries)],
        }) + postorder_payloads(s.drop_first())
    }
}

impl Object for Tree {
    open spec fn obj_kind(&self) -> Types {
        Types::Tree
    }

    open spec fn data_spec(&self) -> Seq<u8> {
        entries_payload(entries_v(self.entries@))
    }

    open spec fn oid_spec(&self) -> Option<Seq<char>> {
        match self.oid {
            Some(s) => Some(s@),
            None => None,
        }
    }

    open spec fn serializable(&self) -> bool {
        entries_wf(entries_v(self.entries@)) && entries_stored(self.entries@)
    }

    fn get_type(&self) -> (t: Types) {
        Types::Tree
    }

    fn get_data(&self) -> (d: Vec<u8>) {
        let ghost v = entries_v(self.entries@);
        let mut out: Vec<u8> = Vec::new();
        let mut i: usize = 0;
        proof {
            lemma_entries_v_props(self.entries@);
            assert(v.subrange(0, 0) =~= Seq::<(Seq<char>, NodeV)>::empty());
        }
        while i < self.entries.len()
            invariant
                i <= self.entries@.len(),
                v == entries_v(self.entries@),
                entries_wf(v),
                entries_stored(self.entries@),
                out@ == entries_payload(v.subrange(0, i as int)),
            decreases self.entries@.len() - i,
        {
            proof {
                lemma_entries_v_props(self.entries@);
                lemma_entries_wf_index(v, i as int);
                lemma_entries_stored_index(self.entries@, i as int);
            }
            let pair = &self.entries[i];
            let mode = pair.1.get_mode();
            let mut line = mode.as_str().as_bytes_vec();
            line.push(32u8);
            let mut nb = pair.0.as_str().as_bytes_vec();
            line.append(&mut nb);
            line.push(0u8);
            let oid_s = pair.1.get_oid();
            proof {
                match self.entries@[i as int].1 {
                    TreeEntry::Entry(e) => {
                        assert(is_oid_chars(oid_s@));
                    },
                    TreeEntry::Tree(sub) => {
                        crate::codec::lemma_hex_of_valid(
                            crate::codec::sha1_of(
                                obj_bytes(
                                    Types::Tree,
                                    entries_payload(entries_v(sub.entries@)),
                                ),
                            ),
                        );
                        crate::codec::lemma_unhex_hex_of(
                            crate::codec::sha1_of(
                                obj_bytes(
                                    Types::Tree,
                                    entries_payload(entries_v(sub.entries@)),
                                ),
                            ),
                        );
                    },
                }
                assert(crate::codec::is_hex_chars(oid_s@) && oid_s@.len() % 2 == 0);
            }
            let mut ob = crate::codec::hex_decode(&oid_s);
            line.append(&mut ob);
            proof {
                assert(line@ =~= entry_line(v[i as int].0, v[i as int].1)) by {
                    match self.entries@[i as int].1 {
                        TreeEntry::Entry(e) => {},
                        TreeEntry::Tree(sub) => {},
                    }
                }
            }
            out.append(&mut line);
            proof {
                assert(v.subrange(0, i as int + 1) =~= v.subrange(0, i as int) + seq![
                    v[i as int],
                ]);
                lemma_entries_payload_concat(v.subrange(0, i as int), seq![v[i as int]]);
                lemma_entries_payload_one(v[i as int]);
            }
            i += 1;
        }
        proof {
            assert(v.subrange(0, self.entries@.len() as int) =~= v);
        }
        out
    }

    fn set_oid(&mut self, hash: String) {
        self.oid = Some(hash);
    }

    fn get_oid(&self) -> (o: Option<String>) {
        match &self.oid {
            Some(s) => Some(s.clone()),
            None => None,
        }
    }
}

impl Tree {
    /// Store the children of `t` from index `i` on, nested trees bottom-up,
    /// collecting the stored level into `acc`.
    fn store_children(
        t: &Tree,
        i: usize,
        db: &Database,
        out: &mut Vec<WriteRequest>,
        acc: &mut Vec<(String, TreeEntry)>,
    ) -> (r: Result<(), RitError>)
        requires
            entries_wf(entries_v(t.entries@)),
            i <= t.entries@.len(),
            entries_v(old(acc)@) == entries_v(t.entries@).subrange(0, i as int),
            entries_stored(old(acc)@),
        ensures
            r matches Ok(_) ==> ({
                let v = entries_v(t.entries@);
                let pls = postorder_payloads(v.subrange(i as int, v.len() as int));
                &&& entries_v(final(acc)@) == v
                &&& entries_stored(final(acc)@)
                &&& final(out)@.len() == old(out)@.len() + pls.len()
                &&& final(out)@.subrange(0, old(out)@.len() as int) == old(out)@
                &&& forall|k: int|
                    0 <= k < pls.len() ==> crate::database::write_ok(
                        final(out)@[old(out)@.len() + k],
                        db.db_path@,
                        Types::Tree,
                        pls[k],
                    )
            }),
            r is Ok,
        decreases *t, 0int, t.entries@.len() - i,
    {
        let ghost v = entries_v(t.entries@);
        proof {
            lemma_entries_v_props(t.entries@);
        }
        if i == t.entries.len() {
            proof {
                assert(entries_v(acc@) =~= v) by {
                    assert(v.subrange(0, i as int) =~= v);
                }
                assert(v.subrange(i as int, v.len() as int).len() == 0);
                assert(postorder_payloads(v.subrange(i as int, v.len() as int)) =~= Seq::<
                    Seq<u8>,
                >::empty());
                assert(final(out)@.subrange(0, old(out)@.len() as int) =~= old(out)@);
            }
            return Ok(());
        }
        proof {
            lemma_entries_wf_index(v, i as int);
            assert(v.subrange(i as int, v.len() as int)[0] == v[i as int]);
            assert(v.subrange(i as int, v.len() as int).drop_first() =~= v.subrange(
                i as int + 1,
                v.len() as int,
            ));
        }
        let name = t.entries[i].0.clone();
        let ghost out0 = out@;
        let ghost acc0 = acc@;
        match &t.entries[i].1 {
            TreeEntry::Entry(e) => {
                let e2 = e.duplicate();
                acc.push((name, TreeEntry::Entry(e2)));
                proof {
                    lemma_entries_stored_push(acc0, (t.entries@[i as int].0, TreeEntry::Entry(e2)));
                    lemma_entries_v_props(acc@);
                    lemma_entries_v_props(acc0);
                    assert(entries_v(acc@) =~= v.subrange(0, i as int + 1)) by {
                        assert forall|k2: int|
                            0 <= k2 < acc@.len() implies entries_v(acc@)[k2] == v.subrange(
                            0,
                            i as int + 1,
                        )[k2] by {
                            if k2 < i {
                                assert(entries_v(acc0)[k2] == v.subrange(0, i as int)[k2]);
                                assert(acc@[k2] == acc0[k2]);
                            } else {
                                assert(acc@[k2] == (t.entries@[i as int].0, TreeEntry::Entry(e2)));
                            }
                        }
                    }
                }
                let r = Self::store_children(t, i + 1, db, out, acc);
                proof {
                    if r is Ok {
                        let pls_rest = postorder_payloads(v.subrange(i as int + 1, v.len() as int));
                        let pls = postorder_payloads(v.subrange(i as int, v.len() as int));
                        assert(pls =~= Seq::<Seq<u8>>::empty() + pls_rest);
                        assert(pls =~= pls_rest);
                    }
                }
                r
            },
            TreeEntry::Tree(sub) => {
                proof {
                    assert(node_wf(v[i as int].1));
                    assert(entries_wf(entries_v(sub.entries@)));
                    assert(decreases_to!(*t => *sub)) by {
                        assert(decreases_to!(*t => t.entries));
                        assert(decreases_to!(t.entries => t.entries@));
                        assert(decreases_to!(t.entries@ => t.entries@[i as int]));
                        assert(decreases_to!(t.entries@[i as int] => t.entries@[i as int].1));
                        assert(t.entries@[i as int].1 == TreeEntry::Tree(*sub));
                        assert(decreases_to!(t.entries@[i as int].1 => *sub));
                    }
                }
                let sub2 = match sub.traverse(db, out) {
                    Ok(s2) => s2,
                    Err(_) => unreached(),
                };
                let ghost out1 = out@;
                acc.push((name, TreeEntry::Tree(sub2)));
                proof {
                    lemma_entries_stored_push(acc0, (t.entries@[i as int].0, TreeEntry::Tree(sub2)));
                    lemma_entries_v_props(acc@);
                    lemma_entries_v_props(acc0);
                    assert(node_v(TreeEntry::Tree(sub2)) == v[i as int].1);
                    assert(entries_v(acc@) =~= v.subrange(0, i as int + 1)) by {
                        assert forall|k2: int|
                            0 <= k2 < acc@.len() implies entries_v(acc@)[k2] == v.subrange(
                            0,
                            i as int + 1,
                        )[k2] by {
                            if k2 < i {
                                assert(entries_v(acc0)[k2] == v.subrange(0, i as int)[k2]);
                                assert(acc@[k2] == acc0[k2]);
                            } else {
                                assert(acc@[k2] == (t.entries@[i as int].0, TreeEntry::Tree(sub2)));
                            }
                        }
                    }
                }
                let r = Self::store_children(t, i + 1, db, out, acc);
                proof {
                    if r is Ok {
                        let sv = entries_v(sub.entries@);
                        let pls_sub = postorder_payloads(sv) + seq![entries_payload(sv)];
                        let pls_rest = postorder_payloads(v.subrange(i as int + 1, v.len() as int));
                        let pls = postorder_payloads(v.subrange(i as int, v.len() as int));
                        assert(pls =~= pls_sub + pls_rest);
                        assert(out@.len() == out0.len() + pls.len());
                        assert(out@.subrange(0, out0.len() as int) =~= out0) by {
                            assert forall|k2: int| 0 <= k2 < out0.len() implies out@[k2]
                                == out0[k2] by {
                                assert(out@.subrange(0, out1.len() as int)[k2] == out@[k2]);
                                assert(out1[k2] == out1.subrange(0, out0.len() as int)[k2]);
                            }
                        }
                        assert forall|k: int|
                            0 <= k < pls.len() implies crate::database::write_ok(
                            out@[out0.len() + k],
                            db.db_path@,
                            Types::Tree,
                            pls[k],
                        ) by {
                            if k < pls_sub.len() {
                                assert(out1[out0.len() + k] == out@.subrange(
                                    0,
                                    out1.len() as int,
                                )[out0.len() + k]);
                                assert(pls[k] == pls_sub[k]);
                            } else {
                                assert(pls[k] == pls_rest[k - pls_sub.len()]);
                                assert(out@[out1.len() + (k - pls_sub.len())] == out@[out0.len()
                                    + k]);
                            }
                        }
                    }
                }
                r
            },
        }
    }

    /// Traverse this `Tree` bottom-up, storing every nested tree and then
    /// the tree itself: children always reach the store before the parent
    /// whose bytes embed their hashes. Returns the stored tree, which
    /// remembers its own hash.
    pub fn traverse(&self, db: &Database, out: &mut Vec<WriteRequest>) -> (r: Result<
        Tree,
        RitError,
    >)
        requires
            entries_wf(entries_v(self.entries@)),
        ensures
            r matches Ok(t2) ==> ({
                let v = entries_v(self.entries@);
                let pls = postorder_payloads(v) + seq![entries_payload(v)];
                &&& entries_v(t2.entries@) == v
                &&& entries_wf(entries_v(t2.entries@))
                &&& tree_stored(t2)
                &&& (t2.oid matches Some(s) && s@ == tree_oid_of(v))
                &&& final(out)@.len() == old(out)@.len() + pls.len()
                &&& final(out)@.subrange(0, old(out)@.len() as int) == old(out)@
                &&& forall|k: int|
                    0 <= k < pls.len() ==> crate::database::write_ok(
                        final(out)@[old(out)@.len() + k],
                        db.db_path@,
                        Types::Tree,
                        pls[k],
                    )
            }),
            r is Ok,
        decreases *self, 1int, 0int,
    {
        let ghost v = entries_v(self.entries@);
        let ghost out0 = out@;
        let mut acc: Vec<(String, TreeEntry)> = Vec::new();
        proof {
            assert(entries_v(acc@) =~= v.subrange(0, 0));
        }
        match Self::store_children(self, 0, db, out, &mut acc) {
            Ok(_) => (),
            Err(_) => unreached(),
        }
        let ghost out1 = out@;
        let mut t2 = Tree { entries: acc, oid: None };
        proof {
            assert(v.subrange(0, v.len() as int) =~= v);
            assert(t2.serializable());
        }
        let data = t2.get_data();
        let content = crate::codec::encode_object(Types::Tree, &data);
        let hash = crate::codec::hash_content(&content);
        let compressed = crate::compress::zlib_compress(&content);
        t2.oid = Some(hash.clone());
        let req = db.write_object(hash, compressed);
        out.push(req);
        proof {
            let pls = postorder_payloads(v) + seq![entries_payload(v)];
            assert(tree_stored(t2));
            assert(out@.len() == out0.len() + pls.len());
            assert(out@.subrange(0, out0.len() as int) =~= out0) by {
                assert forall|k2: int| 0 <= k2 < out0.len() implies out@[k2] == out0[k2] by {
                    assert(out1.subrange(0, out0.len() as int)[k2] == out1[k2]);
                    assert(out@[k2] == out1[k2]);
                }
            }
            assert forall|k: int|
                0 <= k < pls.len() implies crate::database::write_ok(
                out@[out0.len() + k],
                db.db_path@,
                Types::Tree,
                pls[k],
            ) by {
                if k < pls.len() - 1 {
                    assert(out1.subrange(0, out0.len() as int + k + 1).len() > 0);
                    assert(out@[out0.len() + k] == out1[out0.len() + k]);
                    assert(pls[k] == postorder_payloads(v.subrange(0, v.len() as int))[k]);
                } else {
                    assert(out@[out0.len() + k] == req);
                    assert(pls[k] == entries_payload(v));
                }
            }
        }
        Ok(t2)
    }
}

} // verus!
