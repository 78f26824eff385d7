//! The tree object codec: an ordered sequence of `{mode, name, id}`
//! entries, each written as octal mode, space, name, NUL, raw digest.

use vstd::prelude::*;

use crate::bytes::{copy_range, find_byte, find_byte_from, lemma_find_byte};
use crate::id::{bytes_le, ObjectId, ID_LEN};

verus! {

/// One tree entry.
#[derive(Debug)]
pub struct TreeEntry {
    /// Mode bytes: a nonempty run of octal ASCII digits.
    pub mode: Vec<u8>,
    /// Name bytes: nonempty, free of NUL.
    pub name: Vec<u8>,
    /// Digest of the entry's target.
    pub id: ObjectId,
}

/// A decoded tree object.
#[derive(Debug)]
pub struct Tree {
    pub entries: Vec<TreeEntry>,
}

/// The mathematical shape of an entry: mode bytes, name bytes, id bytes.
pub open spec fn entry_view(e: TreeEntry) -> (Seq<u8>, Seq<u8>, Seq<u8>) {
    (e.mode@, e.name@, e.id.bytes@)
}

/// The views of a run of entries.
pub open spec fn entries_view(es: Seq<TreeEntry>) -> Seq<(Seq<u8>, Seq<u8>, Seq<u8>)> {
    es.map(|i: int, e: TreeEntry| entry_view(e))
}

/// An octal ASCII digit.
pub open spec fn is_octal_digit(b: u8) -> bool {
    48 <= b <= 55
}

/// A well-formed entry in its mathematical shape.
pub open spec fn wf_entry(e: (Seq<u8>, Seq<u8>, Seq<u8>)) -> bool {
    &&& e.0.len() >= 1
    &&& forall|j: int| 0 <= j < e.0.len() ==> is_octal_digit(#[trigger] e.0[j])
    &&& e.1.len() >= 1
    &&& forall|j: int| 0 <= j < e.1.len() ==> e.1[j] != 0
    &&& e.2.len() == ID_LEN
}

/// The bytes one entry contributes to a tree object.
pub open spec fn entry_bytes(e: (Seq<u8>, Seq<u8>, Seq<u8>)) -> Seq<u8> {
    e.0 + seq![32u8] + e.1 + seq![0u8] + e.2
}

/// The byte encoding of a run of entries.
pub open spec fn tree_bytes(es: Seq<(Seq<u8>, Seq<u8>, Seq<u8>)>) -> Seq<u8>
    decreases es.len(),
{
    if es.len() == 0 {
        seq![]
    } else {
        entry_bytes(es[0]) + tree_bytes(es.drop_first())
    }
}

/// Parse tree entries from position `i` to the end of `s`. Each entry is
/// a nonempty octal mode, a space, a nonempty NUL-free name, a NUL, and
/// a raw digest; the run must consume `s` exactly.
pub open spec fn parse_tree_at(s: Seq<u8>, i: int) -> Option<Seq<(Seq<u8>, Seq<u8>, Seq<u8>)>>
    decreases s.len() - i,
{
    if i == s.len() {
        Some(seq![])
    } else if !(0 <= i < s.len()) {
        None
    } else {
        let sp = find_byte(s, i, 32);
        if sp >= s.len() || sp <= i || exists|j: int|
            i <= j < sp && !is_octal_digit(#[trigger] s[j]) {
            None
        } else {
            let nul = find_byte(s, sp + 1, 0);
            if nul >= s.len() || nul <= sp + 1 || nul + 1 + ID_LEN > s.len() {
                None
            } else {
                match parse_tree_at(s, nul + 1 + ID_LEN) {
                    None => None,
                    Some(rest) => Some(
                        seq![
                            (
                                s.subrange(i, sp),
                                s.subrange(sp + 1, nul),
                                s.subrange(nul + 1, nul + 1 + ID_LEN),
                            ),
                        ] + rest,
                    ),
                }
            }
        }
    }
}

/// Re-encoding what was parsed gives back exactly the parsed bytes.
pub proof fn lemma_tree_round_trip(s: Seq<u8>, i: int, es: Seq<(Seq<u8>, Seq<u8>, Seq<u8>)>)
    requires
        0 <= i <= s.len(),
        parse_tree_at(s, i) == Some(es),
    ensures
        tree_bytes(es) == s.subrange(i, s.len() as int),
        forall|j: int| 0 <= j < es.len() ==> wf_entry(#[trigger] es[j]),
    decreases s.len() - i,
{
    if i == s.len() {
        assert(tree_bytes(es) =~= s.subrange(i, s.len() as int));
    } else {
        let sp = find_byte(s, i, 32);
        lemma_find_byte(s, i, 32);
        let nul = find_byte(s, sp + 1, 0);
        lemma_find_byte(s, sp + 1, 0);
        let rest = parse_tree_at(s, nul + 1 + ID_LEN).unwrap();
        lemma_tree_round_trip(s, nul + 1 + ID_LEN, rest);
        assert(es.drop_first() =~= rest);
        assert(tree_bytes(es) == entry_bytes(es[0]) + tree_bytes(rest));
        assert(entry_bytes(es[0]) =~= s.subrange(i, nul + 1 + ID_LEN));
        assert(tree_bytes(es) =~= s.subrange(i, s.len() as int));
        assert(wf_entry(es[0]));
    }
}

/// Where and why tree decoding failed.
#[derive(Clone, Copy, Debug, PartialEq, Eq, Structural)]
pub enum TreeDecodeError {
    /// The mode run at `offset` is empty, unterminated or not octal.
    Mode { offset: usize },
    /// The name at `offset` is empty or unterminated.
    Name { offset: usize },
    /// The digest at `offset` is truncated.
    Id { offset: usize },
}

impl Tree {
    /// Decode a tree object from its content bytes. Succeeds exactly on
    /// byte strings that are a well-formed run of entries.
    pub fn decode(data: &[u8]) -> (r: Result<Tree, TreeDecodeError>)
        ensures
            match r {
                Ok(t) => parse_tree_at(data@, 0) == Some(entries_view(t.entries@)),
                Err(_) => parse_tree_at(data@, 0) is None,
            },
    {
        let dlen: usize = data.len();
        let mut entries: Vec<TreeEntry> = Vec::new();
        let mut pos: usize = 0;
        while pos < dlen
            invariant
                pos <= dlen,
                dlen == data@.len(),
                parse_tree_at(data@, 0) == (match parse_tree_at(data@, pos as int) {
                    None => None::<Seq<(Seq<u8>, Seq<u8>, Seq<u8>)>>,
                    Some(rest) => Some(entries_view(entries@) + rest),
                }),
            decreases dlen - pos,
        {
            let sp = find_byte_from(data, pos, 32);
            if sp == dlen || sp == pos {
                return Err(TreeDecodeError::Mode { offset: pos });
            }
            let mut mode_ok = true;
            let mut j: usize = pos;
            while j < sp
                invariant
                    pos <= j <= sp <= dlen,
                    dlen == data@.len(),
                    mode_ok ==> forall|q: int| pos <= q < j ==> is_octal_digit(
                        #[trigger] data@[q],
                    ),
                    !mode_ok ==> exists|q: int|
                        pos <= q < sp && !is_octal_digit(#[trigger] data@[q]),
                decreases sp - j,
            {
                let c = data[j];
                if c < 48 || c > 55 {
                    assert(pos <= j < sp && !is_octal_digit(data@[j as int]));
                    mode_ok = false;
                }
                j = j + 1;
            }
            if !mode_ok {
                return Err(TreeDecodeError::Mode { offset: pos });
            }
            let nul = find_byte_from(data, sp + 1, 0);
            if nul >= dlen || nul == sp + 1 {
                return Err(TreeDecodeError::Name { offset: sp + 1 });
            }
            if dlen - (nul + 1) < ID_LEN {
                return Err(TreeDecodeError::Id { offset: nul + 1 });
            }
            let mode = copy_range(data, pos, sp);
            let name = copy_range(data, sp + 1, nul);
            let idb = copy_range(data, nul + 1, nul + 1 + ID_LEN);
            let entry = TreeEntry { mode, name, id: ObjectId::from_bytes(idb) };
            let ghost prev = entries@;
            let ghost this = (
                data@.subrange(pos as int, sp as int),
                data@.subrange(sp + 1, nul as int),
                data@.subrange(nul + 1, nul + 1 + ID_LEN),
            );
            entries.push(entry);
            proof {
                assert(!(exists|j: int| pos <= j < sp && !is_octal_digit(#[trigger] data@[j])));
                assert(parse_tree_at(data@, pos as int) == (match parse_tree_at(
                    data@,
                    nul + 1 + ID_LEN,
                ) {
                    None => None::<Seq<(Seq<u8>, Seq<u8>, Seq<u8>)>>,
                    Some(rest) => Some(seq![this] + rest),
                }));
                assert(entries_view(entries@) =~= entries_view(prev) + seq![this]);
                if parse_tree_at(data@, nul + 1 + ID_LEN) is Some {
                    let rest = parse_tree_at(data@, nul + 1 + ID_LEN).unwrap();
                    assert(entries_view(prev) + (seq![this] + rest) =~= entries_view(entries@)
                        + rest);
                }
            }
            pos = nul + 1 + ID_LEN;
        }
        proof {
            assert(parse_tree_at(data@, dlen as int) == Some(
                Seq::<(Seq<u8>, Seq<u8>, Seq<u8>)>::empty(),
            ));
            assert(entries_view(entries@) + Seq::<(Seq<u8>, Seq<u8>, Seq<u8>)>::empty()
                =~= entries_view(entries@));
        }
        Ok(Tree { entries })
    }

    /// Encode the tree back to content bytes.
    pub fn encode(&self) -> (r: Vec<u8>)
        ensures
            r@ == tree_bytes(entries_view(self.entries@)),
    {
        let mut out: Vec<u8> = Vec::new();
        let mut i: usize = 0;
        proof {
            assert(entries_view(self.entries@).take(0) =~= Seq::<(
                Seq<u8>,
                Seq<u8>,
                Seq<u8>,
            )>::empty());
        }
        while i < self.entries.len()
            invariant
                i <= self.entries@.len(),
                out@ == tree_bytes(entries_view(self.entries@).take(i as int)),
            decreases self.entries@.len() - i,
        {
            let e = &self.entries[i];
            crate::bytes::push_all(&mut out, e.mode.as_slice());
            out.push(32);
            crate::bytes::push_all(&mut out, e.name.as_slice());
            out.push(0);
            crate::bytes::push_all(&mut out, e.id.bytes.as_slice());
            proof {
                lemma_tree_bytes_snoc(entries_view(self.entries@), i as int);
                assert(out@ =~= tree_bytes(entries_view(self.entries@).take(i + 1)));
            }
            i = i + 1;
        }
        assert(entries_view(self.entries@).take(self.entries@.len() as int) =~= entries_view(
            self.entries@,
        ));
        out
    }
}

/// Encoding one more entry appends its bytes.
proof fn lemma_tree_bytes_snoc(es: Seq<(Seq<u8>, Seq<u8>, Seq<u8>)>, i: int)
    requires
        0 <= i < es.len(),
    ensures
        tree_bytes(es.take(i + 1)) == tree_bytes(es.take(i)) + entry_bytes(es[i]),
    decreases i,
{
    if i == 0 {
        assert(es.take(1).drop_first() =~= Seq::<(Seq<u8>, Seq<u8>, Seq<u8>)>::empty());
        assert(es.take(0) =~= Seq::<(Seq<u8>, Seq<u8>, Seq<u8>)>::empty());
        assert(tree_bytes(es.take(1)) =~= tree_bytes(es.take(0)) + entry_bytes(es[0]));
    } else {
        lemma_tree_bytes_snoc(es.drop_first(), i - 1);
        assert(es.take(i + 1).drop_first() =~= es.drop_first().take(i));
        assert(es.take(i).drop_first() =~= es.drop_first().take(i - 1));
        assert(es.take(i + 1)[0] == es[0]);
        assert(es.take(i)[0] == es[0]);
        assert(es.drop_first()[i - 1] == es[i]);
        assert(tree_bytes(es.take(i + 1)) =~= tree_bytes(es.take(i)) + entry_bytes(es[i]));
    }
}

/// The tree-sort key of an entry: its name, with `/` appended where the
/// mode marks a directory.
pub open spec fn sort_key(e: (Seq<u8>, Seq<u8>, Seq<u8>)) -> Seq<u8> {
    if e.0 == seq![52u8, 48u8, 48u8, 48u8, 48u8] {
        e.1 + seq![47u8]
    } else {
        e.1
    }
}

/// Entries are non-decreasing under the tree-sort comparator.
pub open spec fn entries_sorted(es: Seq<(Seq<u8>, Seq<u8>, Seq<u8>)>) -> bool {
    forall|j: int|
        0 <= j && j + 1 < es.len() ==> bytes_le(sort_key(#[trigger] es[j]), sort_key(es[j + 1]))
}

impl Tree {
    /// Whether the decoded entries are in tree-sort order. The format
    /// does not mandate physical ordering, so decoding tolerates an
    /// unsorted tree; this check reports it.
    pub fn is_sorted(&self) -> (r: bool)
        ensures
            r == entries_sorted(entries_view(self.entries@)),
    {
        let n = self.entries.len();
        if n == 0 {
            return true;
        }
        let mut i: usize = 0;
        while i + 1 < n
            invariant
                i < n,
                n == self.entries@.len(),
                forall|j: int| 0 <= j < i ==> bytes_le(
                    sort_key(#[trigger] entries_view(self.entries@)[j]),
                    sort_key(entries_view(self.entries@)[j + 1]),
                ),
            decreases n - i,
        {
            let a = sort_key_bytes(&self.entries[i]);
            let b = sort_key_bytes(&self.entries[i + 1]);
            if !crate::id::le_bytes(a.as_slice(), b.as_slice()) {
                assert(!bytes_le(
                    sort_key(entries_view(self.entries@)[i as int]),
                    sort_key(entries_view(self.entries@)[i + 1]),
                ));
                return false;
            }
            i = i + 1;
        }
        true
    }
}

/// The tree-sort key of an entry, as bytes.
pub fn sort_key_bytes(e: &TreeEntry) -> (r: Vec<u8>)
    ensures
        r@ == sort_key(entry_view(*e)),
{
    let mut key = copy_range(e.name.as_slice(), 0, e.name.len());
    assert(key@ =~= e.name@);
    let is_dir = e.mode.len() == 5 && {
        let m = e.mode.as_slice();
        m[0] == 52 && m[1] == 48 && m[2] == 48 && m[3] == 48 && m[4] == 48
    };
    if is_dir {
        assert(e.mode@ =~= seq![52u8, 48u8, 48u8, 48u8, 48u8]);
        key.push(47);
    } else {
        assert(e.mode@ != seq![52u8, 48u8, 48u8, 48u8, 48u8]);
    }
    key
}

} // verus!
