//! The commit object codec: tree line, parent lines, author and
//! committer lines, and a verbatim remainder (extra headers, the blank
//! separator and the message).

use vstd::prelude::*;

use crate::bytes::{copy_range, eq_at, find_byte, find_byte_from, lemma_find_byte, push_all};
use crate::id::{all_lower_hex, from_hex_at, hex_of, ObjectId};

verus! {

/// `"tree "`.
pub open spec fn tree_prefix() -> Seq<u8> {
    seq![116u8, 114u8, 101u8, 101u8, 32u8]
}

/// `"parent "`.
pub open spec fn parent_prefix() -> Seq<u8> {
    seq![112u8, 97u8, 114u8, 101u8, 110u8, 116u8, 32u8]
}

/// `"author "`.
pub open spec fn author_prefix() -> Seq<u8> {
    seq![97u8, 117u8, 116u8, 104u8, 111u8, 114u8, 32u8]
}

/// `"committer "`.
pub open spec fn committer_prefix() -> Seq<u8> {
    seq![99u8, 111u8, 109u8, 109u8, 105u8, 116u8, 116u8, 101u8, 114u8, 32u8]
}

/// A decoded commit object.
#[derive(Debug)]
pub struct Commit {
    /// Digest of the tree the commit points at.
    pub tree: ObjectId,
    /// Digests of the parent commits, in file order.
    pub parents: Vec<ObjectId>,
    /// The author line's signature bytes, free of newlines.
    pub author: Vec<u8>,
    /// The committer line's signature bytes, free of newlines.
    pub committer: Vec<u8>,
    /// Everything after the committer line, verbatim: extra headers,
    /// the blank separator and the message.
    pub remainder: Vec<u8>,
}

/// The mathematical shape of a commit: tree hex digits, parent hex
/// digits, author bytes, committer bytes, remainder bytes.
pub open spec fn commit_view(c: Commit) -> (Seq<u8>, Seq<Seq<u8>>, Seq<u8>, Seq<u8>, Seq<u8>) {
    (hex_of(c.tree.bytes@), parents_view(c.parents@), c.author@, c.committer@, c.remainder@)
}

/// The hex digits of each parent digest.
pub open spec fn parents_view(ps: Seq<ObjectId>) -> Seq<Seq<u8>> {
    ps.map(|i: int, p: ObjectId| hex_of(p.bytes@))
}

/// Viewing one more parent appends its digits.
pub proof fn lemma_parents_view_push(ps: Seq<ObjectId>, q: ObjectId)
    ensures
        parents_view(ps.push(q)) == parents_view(ps).push(hex_of(q.bytes@)),
{
    assert(parents_view(ps.push(q)) =~= parents_view(ps).push(hex_of(q.bytes@)));
}

/// Hex encodings consist of lowercase hex digits.
pub proof fn lemma_hex_of_is_hex(s: Seq<u8>)
    ensures
        all_lower_hex(hex_of(s)),
    decreases s.len(),
{
    if s.len() > 0 {
        lemma_hex_of_is_hex(s.drop_first());
        assert forall|j: int| 0 <= j < hex_of(s).len() implies crate::id::is_hex_digit(
            #[trigger] hex_of(s)[j],
        ) by {
            if j >= 2 {
                assert(hex_of(s)[j] == hex_of(s.drop_first())[j - 2]);
            }
        }
    }
}

/// Parse `"parent <hex>\n"` lines from position `p`: the parsed hex
/// runs and the position after the last line.
pub open spec fn parse_parents(s: Seq<u8>, p: int) -> Option<(Seq<Seq<u8>>, int)>
    decreases s.len() - p,
{
    if !(0 <= p) || p + 7 > s.len() || s.subrange(p, p + 7) != parent_prefix() {
        Some((seq![], p))
    } else if p + 48 > s.len() {
        None
    } else if !all_lower_hex(s.subrange(p + 7, p + 47)) || s[p + 47] != 10 {
        None
    } else {
        match parse_parents(s, p + 48) {
            None => None,
            Some((rest, e)) => Some((seq![s.subrange(p + 7, p + 47)] + rest, e)),
        }
    }
}

/// Parse a commit object: a `tree` line, parent lines, an `author`
/// line, a `committer` line, and the verbatim remainder.
pub open spec fn parse_commit(s: Seq<u8>) -> Option<
    (Seq<u8>, Seq<Seq<u8>>, Seq<u8>, Seq<u8>, Seq<u8>),
> {
    if s.len() < 46 || s.subrange(0, 5) != tree_prefix() || !all_lower_hex(s.subrange(5, 45))
        || s[45] != 10 {
        None
    } else {
        match parse_parents(s, 46) {
            None => None,
            Some((ps, p)) => {
                if p + 7 > s.len() || s.subrange(p, p + 7) != author_prefix() {
                    None
                } else {
                    let e = find_byte(s, p + 7, 10);
                    if e >= s.len() {
                        None
                    } else {
                        let q = e + 1;
                        if q + 10 > s.len() || s.subrange(q, q + 10) != committer_prefix() {
                            None
                        } else {
                            let e2 = find_byte(s, q + 10, 10);
                            if e2 >= s.len() {
                                None
                            } else {
                                Some(
                                    (
                                        s.subrange(5, 45),
                                        ps,
                                        s.subrange(p + 7, e),
                                        s.subrange(q + 10, e2),
                                        s.subrange(e2 + 1, s.len() as int),
                                    ),
                                )
                            }
                        }
                    }
                }
            }
        }
    }
}

/// The bytes of the parent lines.
pub open spec fn parents_bytes(ps: Seq<Seq<u8>>) -> Seq<u8>
    decreases ps.len(),
{
    if ps.len() == 0 {
        seq![]
    } else {
        parent_prefix() + ps[0] + seq![10u8] + parents_bytes(ps.drop_first())
    }
}

/// The byte encoding of a commit in its mathematical shape.
pub open spec fn commit_bytes(v: (Seq<u8>, Seq<Seq<u8>>, Seq<u8>, Seq<u8>, Seq<u8>)) -> Seq<u8> {
    tree_prefix() + v.0 + seq![10u8] + parents_bytes(v.1) + author_prefix() + v.2 + seq![10u8]
        + committer_prefix() + v.3 + seq![10u8] + v.4
}

proof fn lemma_parents_round_trip(s: Seq<u8>, p: int, ps: Seq<Seq<u8>>, e: int)
    requires
        0 <= p <= s.len(),
        parse_parents(s, p) == Some((ps, e)),
    ensures
        p <= e <= s.len(),
        parents_bytes(ps) == s.subrange(p, e),
    decreases s.len() - p,
{
    if !(p + 7 > s.len() || s.subrange(p, p + 7) != parent_prefix()) {
        let (rest, e2) = parse_parents(s, p + 48).unwrap();
        lemma_parents_round_trip(s, p + 48, rest, e2);
        assert(ps.drop_first() =~= rest);
        assert(parents_bytes(ps) =~= s.subrange(p, e));
    } else {
        assert(parents_bytes(ps) =~= s.subrange(p, e));
    }
}

/// Re-encoding what was parsed gives back exactly the parsed bytes.
pub proof fn lemma_commit_round_trip(s: Seq<u8>, v: (Seq<u8>, Seq<Seq<u8>>, Seq<u8>, Seq<u8>, Seq<u8>))
    requires
        parse_commit(s) == Some(v),
    ensures
        commit_bytes(v) == s,
{
    let (ps, p) = parse_parents(s, 46).unwrap();
    lemma_parents_round_trip(s, 46, ps, p);
    let e = find_byte(s, p + 7, 10);
    lemma_find_byte(s, p + 7, 10);
    let q = e + 1;
    let e2 = find_byte(s, q + 10, 10);
    lemma_find_byte(s, q + 10, 10);
    assert(commit_bytes(v) =~= s);
}

/// Where and why commit decoding failed.
#[derive(Clone, Copy, Debug, PartialEq, Eq, Structural)]
pub enum CommitDecodeError {
    /// The `tree` line at `offset` is missing or malformed.
    Tree { offset: usize },
    /// The `parent` line at `offset` is malformed.
    Parent { offset: usize },
    /// The `author` line at `offset` is missing or unterminated.
    Author { offset: usize },
    /// The `committer` line at `offset` is missing or unterminated.
    Committer { offset: usize },
}

/// The bytes of `data` at `at` open with prefix `p`.
fn has_prefix_at(data: &[u8], at: usize, p: &Vec<u8>) -> (r: bool)
    requires
        at <= data@.len(),
    ensures
        r == (at + p@.len() <= data@.len() && data@.subrange(at as int, at + p@.len()) == p@),
{
    if data.len() - at < p.len() {
        return false;
    }
    eq_at(data, at, p.as_slice())
}

/// `"parent "` as bytes.
fn parent_prefix_bytes() -> (r: Vec<u8>)
    ensures
        r@ == parent_prefix(),
{
    let r = vec![112u8, 97u8, 114u8, 101u8, 110u8, 116u8, 32u8];
    assert(r@ =~= parent_prefix());
    r
}

impl Commit {
    /// Decode a commit object from its content bytes. Succeeds exactly
    /// on byte strings opening with a well-formed header section.
    pub fn decode(data: &[u8]) -> (r: Result<Commit, CommitDecodeError>)
        ensures
            match r {
                Ok(c) => parse_commit(data@) == Some(commit_view(c)) && c.tree.wf(),
                Err(_) => parse_commit(data@) is None,
            },
    {
        let dlen: usize = data.len();
        let tp = {
            let v = vec![116u8, 114u8, 101u8, 101u8, 32u8];
            assert(v@ =~= tree_prefix());
            v
        };
        if dlen < 46 || !has_prefix_at(data, 0, &tp) {
            return Err(CommitDecodeError::Tree { offset: 0 });
        }
        let tree = match from_hex_at(data, 5) {
            Some(id) => id,
            None => {
                return Err(CommitDecodeError::Tree { offset: 5 });
            }
        };
        if data[45] != 10 {
            return Err(CommitDecodeError::Tree { offset: 45 });
        }
        let pp = parent_prefix_bytes();
        let mut parents: Vec<ObjectId> = Vec::new();
        let mut p: usize = 46;
        while has_prefix_at(data, p, &pp)
            invariant
                46 <= p <= dlen,
                dlen == data@.len(),
                pp@ == parent_prefix(),
                parse_parents(data@, 46) == (match parse_parents(data@, p as int) {
                    None => None::<(Seq<Seq<u8>>, int)>,
                    Some((rest, e)) => Some((parents_view(parents@) + rest, e)),
                }),
            decreases dlen - p,
        {
            if dlen - p < 48 {
                return Err(CommitDecodeError::Parent { offset: p });
            }
            let pid = match from_hex_at(data, p + 7) {
                Some(id) => id,
                None => {
                    return Err(CommitDecodeError::Parent { offset: p + 7 });
                }
            };
            if data[p + 47] != 10 {
                return Err(CommitDecodeError::Parent { offset: p + 47 });
            }
            let ghost prev = parents@;
            parents.push(pid);
            proof {
                lemma_hex_of_is_hex(pid.bytes@);
                assert(all_lower_hex(data@.subrange(p + 7, p + 47)));
                assert(parse_parents(data@, p as int) == (match parse_parents(data@, p + 48) {
                    None => None::<(Seq<Seq<u8>>, int)>,
                    Some((rest, e)) => Some((seq![data@.subrange(p + 7, p + 47)] + rest, e)),
                }));
                lemma_parents_view_push(prev, pid);
                assert(parents_view(parents@) =~= parents_view(prev) + seq![
                    data@.subrange(p + 7, p + 47),
                ]);
                if parse_parents(data@, p + 48) is Some {
                    let (rest, e) = parse_parents(data@, p + 48).unwrap();
                    assert(parents_view(prev) + (seq![data@.subrange(p + 7, p + 47)] + rest)
                        =~= parents_view(parents@) + rest);
                }
            }
            p = p + 48;
        }
        proof {
            assert(parse_parents(data@, p as int) == Some((Seq::<Seq<u8>>::empty(), p as int)));
            assert(parents_view(parents@) + Seq::<Seq<u8>>::empty() =~= parents_view(parents@));
        }
        let ap = {
            let v = vec![97u8, 117u8, 116u8, 104u8, 111u8, 114u8, 32u8];
            assert(v@ =~= author_prefix());
            v
        };
        if !has_prefix_at(data, p, &ap) {
            return Err(CommitDecodeError::Author { offset: p });
        }
        let e = find_byte_from(data, p + 7, 10);
        if e == dlen {
            return Err(CommitDecodeError::Author { offset: p });
        }
        let author = copy_range(data, p + 7, e);
        let q = e + 1;
        let cp = {
            let v = vec![99u8, 111u8, 109u8, 109u8, 105u8, 116u8, 116u8, 101u8, 114u8, 32u8];
            assert(v@ =~= committer_prefix());
            v
        };
        if !has_prefix_at(data, q, &cp) {
            return Err(CommitDecodeError::Committer { offset: q });
        }
        let e2 = find_byte_from(data, q + 10, 10);
        if e2 == dlen {
            return Err(CommitDecodeError::Committer { offset: q });
        }
        let committer = copy_range(data, q + 10, e2);
        let remainder = copy_range(data, e2 + 1, dlen);
        let c = Commit { tree, parents, author, committer, remainder };
        proof {
            lemma_hex_of_is_hex(c.tree.bytes@);
            assert(parse_commit(data@) == Some(commit_view(c)));
        }
        Ok(c)
    }

    /// Encode the commit back to content bytes.
    pub fn encode(&self) -> (r: Vec<u8>)
        ensures
            r@ == commit_bytes(commit_view(*self)),
    {
        let mut out: Vec<u8> = Vec::new();
        let tp = {
            let v = vec![116u8, 114u8, 101u8, 101u8, 32u8];
            assert(v@ =~= tree_prefix());
            v
        };
        push_all(&mut out, tp.as_slice());
        let th = self.tree.to_hex();
        push_all(&mut out, th.as_slice());
        out.push(10);
        let pp = parent_prefix_bytes();
        let mut i: usize = 0;
        let ghost head = out@;
        while i < self.parents.len()
            invariant
                i <= self.parents@.len(),
                pp@ == parent_prefix(),
                out@ == head + parents_bytes(parents_view(self.parents@).take(i as int)),
            decreases self.parents@.len() - i,
        {
            push_all(&mut out, pp.as_slice());
            let ph = self.parents[i].to_hex();
            push_all(&mut out, ph.as_slice());
            out.push(10);
            proof {
                lemma_parents_bytes_snoc(parents_view(self.parents@), i as int);
                assert(parents_view(self.parents@)[i as int] == hex_of(
                    self.parents@[i as int].bytes@,
                ));
                assert(out@ =~= head + parents_bytes(parents_view(self.parents@).take(i + 1)));
            }
            i = i + 1;
        }
        assert(parents_view(self.parents@).take(self.parents@.len() as int) =~= parents_view(
            self.parents@,
        ));
        let ap = {
            let v = vec![97u8, 117u8, 116u8, 104u8, 111u8, 114u8, 32u8];
            assert(v@ =~= author_prefix());
            v
        };
        push_all(&mut out, ap.as_slice());
        push_all(&mut out, self.author.as_slice());
        out.push(10);
        let cp = {
            let v = vec![99u8, 111u8, 109u8, 109u8, 105u8, 116u8, 116u8, 101u8, 114u8, 32u8];
            assert(v@ =~= committer_prefix());
            v
        };
        push_all(&mut out, cp.as_slice());
        push_all(&mut out, self.committer.as_slice());
        out.push(10);
        push_all(&mut out, self.remainder.as_slice());
        assert(out@ =~= commit_bytes(commit_view(*self)));
        out
    }
}

/// Encoding one more parent appends its line.
proof fn lemma_parents_bytes_snoc(ps: Seq<Seq<u8>>, i: int)
    requires
        0 <= i < ps.len(),
    ensures
        parents_bytes(ps.take(i + 1)) == parents_bytes(ps.take(i)) + (parent_prefix() + ps[i]
            + seq![10u8]),
    decreases i,
{
    if i == 0 {
        assert(ps.take(1).drop_first() =~= Seq::<Seq<u8>>::empty());
        assert(ps.take(0) =~= Seq::<Seq<u8>>::empty());
        assert(parents_bytes(ps.take(1)) =~= parents_bytes(ps.take(0)) + (parent_prefix() + ps[0]
            + seq![10u8]));
    } else {
        lemma_parents_bytes_snoc(ps.drop_first(), i - 1);
        assert(ps.take(i + 1).drop_first() =~= ps.drop_first().take(i));
        assert(ps.take(i).drop_first() =~= ps.drop_first().take(i - 1));
        assert(ps.take(i + 1)[0] == ps[0]);
        assert(ps.take(i)[0] == ps[0]);
        assert(ps.drop_first()[i - 1] == ps[i]);
        assert(parents_bytes(ps.take(i + 1)) =~= parents_bytes(ps.take(i)) + (parent_prefix()
            + ps[i] + seq![10u8]));
    }
}

} // verus!
