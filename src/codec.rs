use vstd::prelude::*;
use vstd::bytes::{
    lemma_auto_spec_u64_to_from_le_bytes, spec_u64_from_le_bytes, spec_u64_to_le_bytes,
    u64_from_le_bytes, u64_to_le_bytes,
};
use crate::primitives::{AuthorityId, AuthorityWeight};

verus! {

/// Eight little-endian bytes of `x`.
pub open spec fn le64(x: u64) -> Seq<u8> {
    spec_u64_to_le_bytes(x)
}

/// The 64-bit word stored at `pos`, if eight bytes are there.
pub open spec fn word_at(b: Seq<u8>, pos: int) -> Option<u64> {
    if 0 <= pos && pos + 8 <= b.len() {
        Some(spec_u64_from_le_bytes(b.subrange(pos, pos + 8)))
    } else {
        None
    }
}

/// `w` stands in `b` at `pos`.
pub open spec fn is_at(w: Seq<u8>, b: Seq<u8>, pos: int) -> bool {
    0 <= pos && pos + w.len() <= b.len() && b.subrange(pos, pos + w.len()) == w
}

/// Splits a concatenation found at `pos` into its two parts.
pub proof fn lemma_split_at(w1: Seq<u8>, w2: Seq<u8>, b: Seq<u8>, pos: int)
    requires
        is_at(w1 + w2, b, pos),
    ensures
        is_at(w1, b, pos),
        is_at(w2, b, pos + w1.len()),
{
    let w = w1 + w2;
    assert forall|k: int| 0 <= k < w1.len() implies b.subrange(pos, pos + w1.len())[k] == w1[k] by {
        assert(b.subrange(pos, pos + w.len())[k] == w[k]);
    }
    assert(b.subrange(pos, pos + w1.len()) =~= w1);
    assert forall|k: int| 0 <= k < w2.len() implies b.subrange(pos + w1.len(), pos + w1.len() + w2.len())[k] == w2[k] by {
        assert(b.subrange(pos, pos + w.len())[w1.len() + k] == w[w1.len() + k]);
    }
    assert(b.subrange(pos + w1.len(), pos + w1.len() + w2.len()) =~= w2);
}

/// A word written at `pos` reads back.
pub proof fn lemma_word_at(x: u64, b: Seq<u8>, pos: int)
    requires
        is_at(le64(x), b, pos),
    ensures
        word_at(b, pos) == Some(x),
        le64(x).len() == 8,
{
    lemma_auto_spec_u64_to_from_le_bytes();
}

/// Reads the word at `pos`.
pub fn read_u64(b: &Vec<u8>, pos: usize) -> (r: Option<u64>)
    ensures
        r == word_at(b@, pos as int),
{
    if pos > b.len() || b.len() - pos < 8 {
        return None;
    }
    let mut w: Vec<u8> = Vec::new();
    let mut i: usize = 0;
    while i < 8
        invariant
            pos + 8 <= b@.len(),
            b@.len() == b.len(),
            i <= 8,
            w@ == b@.subrange(pos as int, pos + i),
        decreases 8 - i,
    {
        w.push(b[pos + i]);
        assert(w@ =~= b@.subrange(pos as int, pos + i + 1));
        i = i + 1;
    }
    Some(u64_from_le_bytes(w.as_slice()))
}

/// Appends the eight little-endian bytes of `x`.
pub fn write_u64(out: &mut Vec<u8>, x: u64)
    ensures
        final(out)@ == old(out)@ + le64(x),
{
    let mut bytes = u64_to_le_bytes(x);
    out.append(&mut bytes);
}

/// Bytes of a list of weighted authorities, without its length.
pub open spec fn wire_pairs(s: Seq<(AuthorityId, AuthorityWeight)>) -> Seq<u8>
    decreases s.len(),
{
    if s.len() == 0 {
        Seq::empty()
    } else {
        wire_pairs(s.drop_last()) + le64(s.last().0) + le64(s.last().1)
    }
}

/// Bytes of a list of weighted authorities: its length, then each entry.
pub open spec fn wire_authorities(s: Seq<(AuthorityId, AuthorityWeight)>) -> Seq<u8> {
    le64(s.len() as u64) + wire_pairs(s)
}

/// Reading `count` weighted authorities from `pos`: the entries and the
/// position after them.
pub open spec fn read_pairs(b: Seq<u8>, pos: int, count: nat) -> Option<(Seq<(AuthorityId, AuthorityWeight)>, int)>
    decreases count,
{
    if count == 0 {
        Some((Seq::empty(), pos))
    } else {
        match read_pairs(b, pos, (count - 1) as nat) {
            None => None,
            Some((s, p)) => match (word_at(b, p), word_at(b, p + 8)) {
                (Some(id), Some(w)) => Some((s.push((id, w)), p + 16)),
                _ => None,
            },
        }
    }
}

/// Reading a length-prefixed list of weighted authorities from `pos`.
pub open spec fn read_authorities(b: Seq<u8>, pos: int) -> Option<(Seq<(AuthorityId, AuthorityWeight)>, int)> {
    match word_at(b, pos) {
        None => None,
        Some(n) => read_pairs(b, pos + 8, n as nat),
    }
}

proof fn lemma_wire_pairs_len(s: Seq<(AuthorityId, AuthorityWeight)>)
    ensures
        wire_pairs(s).len() == 16 * s.len(),
    decreases s.len(),
{
    lemma_auto_spec_u64_to_from_le_bytes();
    if s.len() > 0 {
        lemma_wire_pairs_len(s.drop_last());
    }
}

/// Weighted authorities written at `pos` read back.
pub proof fn lemma_pairs_round_trip(s: Seq<(AuthorityId, AuthorityWeight)>, b: Seq<u8>, pos: int)
    requires
        is_at(wire_pairs(s), b, pos),
    ensures
        read_pairs(b, pos, s.len()) == Some((s, pos + wire_pairs(s).len())),
    decreases s.len(),
{
    lemma_auto_spec_u64_to_from_le_bytes();
    if s.len() > 0 {
        let init = s.drop_last();
        let x = s.last();
        lemma_split_at(wire_pairs(init) + le64(x.0), le64(x.1), b, pos);
        lemma_split_at(wire_pairs(init), le64(x.0), b, pos);
        lemma_pairs_round_trip(init, b, pos);
        lemma_word_at(x.0, b, pos + wire_pairs(init).len());
        lemma_word_at(x.1, b, pos + wire_pairs(init).len() + 8);
        assert(init.push(x) =~= s);
    }
}

/// A length-prefixed list of weighted authorities written at `pos` reads back.
pub proof fn lemma_authorities_round_trip(s: Seq<(AuthorityId, AuthorityWeight)>, b: Seq<u8>, pos: int)
    requires
        is_at(wire_authorities(s), b, pos),
        b.len() <= usize::MAX,
    ensures
        read_authorities(b, pos) == Some((s, pos + wire_authorities(s).len())),
{
    lemma_auto_spec_u64_to_from_le_bytes();
    lemma_split_at(le64(s.len() as u64), wire_pairs(s), b, pos);
    lemma_word_at(s.len() as u64, b, pos);
    lemma_wire_pairs_len(s);
    assert(s.len() < 0x1_0000_0000_0000_0000);
    assert(s.len() as u64 == s.len());
    lemma_pairs_round_trip(s, b, pos + 8);
}

/// Appends a length-prefixed list of weighted authorities.
pub fn write_authorities(out: &mut Vec<u8>, s: &Vec<(AuthorityId, AuthorityWeight)>)
    ensures
        final(out)@ == old(out)@ + wire_authorities(s@),
{
    write_u64(out, s.len() as u64);
    let ghost start = out@;
    let mut i: usize = 0;
    while i < s.len()
        invariant
            i <= s@.len(),
            out@ == start + wire_pairs(s@.take(i as int)),
        decreases s@.len() - i,
    {
        write_u64(out, s[i].0);
        write_u64(out, s[i].1);
        assert(s@.take(i + 1).drop_last() =~= s@.take(i as int));
        i = i + 1;
    }
    assert(s@.take(s@.len() as int) =~= s@);
}

/// Once reading fails, reading more entries fails too.
proof fn lemma_read_pairs_none(b: Seq<u8>, pos: int, i: nat, m: nat)
    requires
        i <= m,
        read_pairs(b, pos, i) is None,
    ensures
        read_pairs(b, pos, m) is None,
    decreases m,
{
    if m > i {
        lemma_read_pairs_none(b, pos, i, (m - 1) as nat);
    }
}

/// Reads a length-prefixed list of weighted authorities at `pos`.
pub fn read_authority_list(b: &Vec<u8>, pos: usize) -> (r: Option<(Vec<(AuthorityId, AuthorityWeight)>, usize)>)
    ensures
        r matches Some((v, p)) ==> read_authorities(b@, pos as int) == Some((v@, p as int)),
        r is None ==> read_authorities(b@, pos as int) is None,
{
    let n = match read_u64(b, pos) {
        None => return None,
        Some(n) => n,
    };
    let blen = b.len();
    assert(pos + 8 <= b@.len());
    let mut v: Vec<(AuthorityId, AuthorityWeight)> = Vec::new();
    let mut p: usize = pos + 8;
    let mut i: u64 = 0;
    while i < n
        invariant
            i <= n,
            p <= b@.len(),
            read_pairs(b@, pos + 8, i as nat) == Some((v@, p as int)),
            word_at(b@, pos as int) == Some(n),
            blen == b@.len(),
        decreases n - i,
    {
        let id = match read_u64(b, p) {
            None => {
                proof {
                    lemma_read_pairs_none(b@, pos + 8, (i + 1) as nat, n as nat);
                }
                return None;
            },
            Some(x) => x,
        };
        assert(p + 8 <= b@.len());
        let w = match read_u64(b, p + 8) {
            None => {
                proof {
                    lemma_read_pairs_none(b@, pos + 8, (i + 1) as nat, n as nat);
                }
                return None;
            },
            Some(x) => x,
        };
        v.push((id, w));
        p = p + 16;
        i = i + 1;
    }
    Some((v, p))
}

/// Reading entries never passes the end of `b`.
proof fn lemma_read_pairs_bound(b: Seq<u8>, pos: int, count: nat)
    requires
        pos <= b.len(),
        read_pairs(b, pos, count) is Some,
    ensures
        read_pairs(b, pos, count).unwrap().1 <= b.len(),
    decreases count,
{
    if count > 0 {
        lemma_read_pairs_bound(b, pos, (count - 1) as nat);
    }
}

/// Reading a list of weighted authorities never passes the end of `b`.
pub proof fn lemma_read_authorities_bound(b: Seq<u8>, pos: int)
    requires
        read_authorities(b, pos) is Some,
    ensures
        read_authorities(b, pos).unwrap().1 <= b.len(),
{
    lemma_read_pairs_bound(b, pos + 8, word_at(b, pos)->0 as nat);
}

} // verus!
