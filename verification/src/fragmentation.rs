//! Splitting a serialized message into fixed-size fragments and putting the
//! fragments of a message back together.
use std::collections::HashMap;
use vstd::prelude::*;

use crate::packet::{Fragment, FRAGMENT_DSIZE};
use vstd::utf8::{decode_utf8, valid_utf8};

verus! {

broadcast use vstd::std_specs::hash::group_hash_axioms;

/// How many fragments `n` bytes need.
pub open spec fn fragment_count(n: nat) -> nat {
    if n % 128 == 0 {
        n / 128
    } else {
        n / 128 + 1
    }
}

/// The bytes fragment `i` of `bytes` carries.
pub open spec fn chunk(bytes: Seq<u8>, i: int) -> Seq<u8> {
    let lo = i * 128;
    let hi = if (i + 1) * 128 < bytes.len() {
        (i + 1) * 128
    } else {
        bytes.len() as int
    };
    bytes.subrange(lo, hi)
}

/// The bytes a fragment carries.
pub open spec fn payload(f: Fragment) -> Seq<u8> {
    f.data@.take(f.length as int)
}

/// The payload of each fragment index, a later fragment with the same index
/// replacing an earlier one.
pub open spec fn payload_map(fs: Seq<Fragment>) -> Map<u64, Seq<u8>>
    decreases fs.len(),
{
    if fs.len() == 0 {
        Map::empty()
    } else {
        payload_map(fs.drop_last()).insert(fs.last().fragment_index, payload(fs.last()))
    }
}

/// The payloads of indices `0 .. n` joined in order, skipping indices with no
/// fragment.
pub open spec fn joined(m: Map<u64, Seq<u8>>, n: nat) -> Seq<u8>
    decreases n,
{
    if n == 0 {
        Seq::empty()
    } else {
        joined(m, (n - 1) as nat) + if m.contains_key((n - 1) as u64) {
            m[(n - 1) as u64]
        } else {
            Seq::empty()
        }
    }
}

/// The bytes the fragments of a message stand for: the payloads of indices
/// `0 .. d`, `d` being the number of different indices received.
pub open spec fn assembled(fs: Seq<Fragment>) -> Seq<u8> {
    joined(payload_map(fs), payload_map(fs).dom().len())
}

/// Every fragment uses at most `FRAGMENT_DSIZE` bytes of its payload.
pub open spec fn well_sized(fs: Seq<Fragment>) -> bool {
    forall|i: int| 0 <= i < fs.len() ==> (#[trigger] fs[i]).length <= 128
}

/// `fs` are the fragments of `bytes`: 128-byte pieces numbered from 0,
/// each knowing the total; the last one carries what is left, the unused end
/// of its payload being zero.
pub open spec fn fragmented(fs: Seq<Fragment>, bytes: Seq<u8>) -> bool {
    &&& fs.len() == fragment_count(bytes.len())
    &&& well_sized(fs)
    &&& forall|i: int|
        0 <= i < fs.len() ==> (#[trigger] fs[i]).fragment_index == i && fs[i].total_n_fragments == fs.len()
            && payload(fs[i]) == chunk(bytes, i) && forall|j: int| fs[i].length <= j < 128 ==> fs[i].data@[j] == 0
}

/// Splits `bytes` into 128-byte fragments numbered from 0, each knowing the
/// total; the last one carries what is left, the unused end of its payload
/// being zero.
pub fn fragment_message(bytes: &Vec<u8>) -> (r: Vec<Fragment>)
    requires
        bytes@.len() < u64::MAX,
    ensures
        fragmented(r@, bytes@),
{
    let len = bytes.len();
    let total: u64 = if len % FRAGMENT_DSIZE == 0 {
        (len / FRAGMENT_DSIZE) as u64
    } else {
        (len / FRAGMENT_DSIZE + 1) as u64
    };
    let mut out: Vec<Fragment> = Vec::new();
    let mut start: usize = 0;
    let mut frag_id: u64 = 0;
    while start < len
        invariant
            len == bytes@.len(),
            total == fragment_count(len as nat),
            start == if frag_id * 128 < len {
                frag_id * 128
            } else {
                len as int
            },
            start < len ==> start == frag_id * 128,
            start == len ==> frag_id == total,
            out@.len() == frag_id,
            well_sized(out@),
            frag_id <= total,
            start < len ==> frag_id < total,
            forall|i: int|
                0 <= i < out@.len() ==> (#[trigger] out@[i]).fragment_index == i && out@[i].total_n_fragments
                    == total && payload(out@[i]) == chunk(bytes@, i) && forall|j: int|
                    out@[i].length <= j < 128 ==> out@[i].data@[j] == 0,
        decreases len - start,
    {
        let end = if len - start < FRAGMENT_DSIZE {
            len
        } else {
            start + FRAGMENT_DSIZE
        };
        let mut padded_chunk = [0u8; 128];
        let mut k: usize = start;
        while k < end
            invariant
                start <= k <= end,
                end <= len,
                end - start <= 128,
                len == bytes@.len(),
                forall|j: int| 0 <= j < k - start ==> padded_chunk@[j] == bytes@[start + j],
                forall|j: int| k - start <= j < 128 ==> padded_chunk@[j] == 0,
            decreases end - k,
        {
            padded_chunk[k - start] = bytes[k];
            k = k + 1;
        }
        let length = (end - start) as u8;
        let fragment = Fragment { fragment_index: frag_id, total_n_fragments: total, length, data: padded_chunk };
        proof {
            assert(payload(fragment) =~= chunk(bytes@, frag_id as int));
        }
        out.push(fragment);
        start = end;
        frag_id = frag_id + 1;
    }
    out
}

/// Puts the fragments of a message back together: each index keeps the
/// payload of its last fragment, and the payloads of indices `0 .. d` are
/// joined in order, `d` being the number of different indices (so indices at
/// or past `d` are left out, and missing indices below it are skipped).
pub fn reassemble_bytes(packets: &Vec<Fragment>) -> (r: Vec<u8>)
    requires
        well_sized(packets@),
    ensures
        r@ == assembled(packets@),
{
    let mut to_content: HashMap<u64, Vec<u8>> = HashMap::new();
    let mut i: usize = 0;
    while i < packets.len()
        invariant
            0 <= i <= packets@.len(),
            well_sized(packets@),
            forall|k: u64|
                #[trigger] to_content@.contains_key(k) == payload_map(packets@.take(i as int)).contains_key(k),
            forall|k: u64|
                #[trigger] to_content@.contains_key(k) ==> to_content@[k]@ == payload_map(
                    packets@.take(i as int),
                )[k],
        decreases packets@.len() - i,
    {
        let frag = packets[i];
        assert(packets@[i as int].length <= 128);
        let mut help: Vec<u8> = Vec::new();
        let mut j: usize = 0;
        while j < frag.length as usize
            invariant
                frag.length <= 128,
                0 <= j <= frag.length,
                help@ == frag.data@.take(j as int),
            decreases frag.length - j,
        {
            help.push(frag.data[j]);
            assert(help@ =~= frag.data@.take(j + 1));
            j = j + 1;
        }
        to_content.insert(frag.fragment_index, help);
        assert(packets@.take(i + 1).drop_last() =~= packets@.take(i as int));
        i = i + 1;
    }
    assert(packets@.take(i as int) =~= packets@);
    let ghost m = payload_map(packets@);
    assert(to_content@.dom() =~= m.dom());
    let keys_cap = to_content.len() as u64;
    let mut out: Vec<u8> = Vec::new();
    let mut key: u64 = 0;
    while key < keys_cap
        invariant
            key <= keys_cap,
            keys_cap == m.dom().len(),
            forall|k: u64| #[trigger] to_content@.contains_key(k) == m.contains_key(k),
            forall|k: u64| #[trigger] to_content@.contains_key(k) ==> to_content@[k]@ == m[k],
            out@ == joined(m, key as nat),
        decreases keys_cap - key,
    {
        match to_content.get(&key) {
            Some(values) => {
                let mut j: usize = 0;
                let ghost base = out@;
                while j < values.len()
                    invariant
                        0 <= j <= values@.len(),
                        out@ == base + values@.take(j as int),
                    decreases values@.len() - j,
                {
                    out.push(values[j]);
                    assert(out@ =~= base + values@.take(j + 1));
                    j = j + 1;
                }
                assert(values@.take(j as int) =~= values@);
            },
            None => {
                assert(out@ =~= joined(m, key as nat) + Seq::<u8>::empty());
            },
        }
        key = key + 1;
    }
    out
}

/// Why the bytes of a message could not be turned back into its text.
#[derive(Debug, Clone, PartialEq, Eq)]
pub enum ReassemblyError {
    /// Some fragment claims more than `FRAGMENT_DSIZE` payload bytes.
    OversizedFragment,
    /// The joined payloads are not valid UTF-8: the text of std's
    /// `FromUtf8Error` for them.
    InvalidUtf8(String),
}

/// The text std's `FromUtf8Error` shows for bytes that are not valid UTF-8
/// (where the first invalid sequence starts, and how long it is); a function
/// of the bytes alone.
pub uninterp spec fn utf8_error_text(bytes: Seq<u8>) -> Seq<char>;

/// `String::from_utf8`: std documents that it succeeds exactly when the bytes
/// are valid UTF-8, and then the string holds the characters they encode;
/// otherwise its error is shown as text (`to_string`).
#[verifier::external_body]
fn string_from_utf8(bytes: Vec<u8>) -> (r: Result<String, String>)
    ensures
        r is Ok <==> valid_utf8(bytes@),
        r matches Ok(s) ==> s@ == decode_utf8(bytes@),
        r matches Err(t) ==> t@ == utf8_error_text(bytes@),
{
    match String::from_utf8(bytes) {
        Ok(s) => Ok(s),
        Err(e) => Err(e.to_string()),
    }
}

/// The text the fragments of a message stand for (`assembled`, read as
/// UTF-8); an error when a fragment is oversized or the bytes are not UTF-8.
pub fn reassemble_text(packets: &Vec<Fragment>) -> (r: Result<String, ReassemblyError>)
    ensures
        !well_sized(packets@) ==> r == Err::<String, ReassemblyError>(ReassemblyError::OversizedFragment),
        well_sized(packets@) && !valid_utf8(assembled(packets@)) ==> (r matches Err(ReassemblyError::InvalidUtf8(t))
            && t@ == utf8_error_text(assembled(packets@))),
        well_sized(packets@) && valid_utf8(assembled(packets@)) ==> (r matches Ok(s) && s@
            == decode_utf8(assembled(packets@))),
{
    let mut i: usize = 0;
    while i < packets.len()
        invariant
            0 <= i <= packets@.len(),
            forall|j: int| 0 <= j < i ==> (#[trigger] packets@[j]).length <= 128,
        decreases packets@.len() - i,
    {
        if packets[i].length > 128 {
            return Err(ReassemblyError::OversizedFragment);
        }
        i = i + 1;
    }
    let bytes = reassemble_bytes(packets);
    match string_from_utf8(bytes) {
        Ok(s) => Ok(s),
        Err(t) => Err(ReassemblyError::InvalidUtf8(t)),
    }
}

proof fn lemma_payload_map_prefix(bytes: Seq<u8>, fs: Seq<Fragment>, k: int)
    requires
        0 <= k <= fs.len(),
        fs.len() < u64::MAX,
        forall|i: int|
            0 <= i < fs.len() ==> (#[trigger] fs[i]).fragment_index == i && payload(fs[i]) == chunk(
                bytes,
                i,
            ),
    ensures
        forall|x: u64| #[trigger] payload_map(fs.take(k)).contains_key(x) <==> x < k,
        forall|x: u64| x < k ==> #[trigger] payload_map(fs.take(k))[x] == chunk(bytes, x as int),
        payload_map(fs.take(k)).dom().finite(),
        payload_map(fs.take(k)).dom().len() == k,
    decreases k,
{
    if k == 0 {
        assert(fs.take(0) =~= Seq::<Fragment>::empty());
        assert(payload_map(fs.take(0)).dom() =~= Set::<u64>::empty());
    } else {
        lemma_payload_map_prefix(bytes, fs, k - 1);
        assert(fs.take(k).drop_last() =~= fs.take(k - 1));
        assert(fs.take(k).last() == fs[k - 1]);
        let prev = payload_map(fs.take(k - 1));
        assert(!prev.contains_key((k - 1) as u64));
        assert(payload_map(fs.take(k)).dom() =~= prev.dom().insert((k - 1) as u64));
    }
}

proof fn lemma_joined_chunks(bytes: Seq<u8>, m: Map<u64, Seq<u8>>, k: nat)
    requires
        bytes.len() < u64::MAX,
        k <= fragment_count(bytes.len()),
        forall|x: u64| x < k ==> #[trigger] m.contains_key(x) && m[x] == chunk(bytes, x as int),
    ensures
        joined(m, k) == bytes.subrange(0, if k * 128 < bytes.len() { (k * 128) as int } else { bytes.len() as int }),
    decreases k,
{
    if k > 0 {
        assert forall|x: u64| x < (k - 1) as nat implies #[trigger] m.contains_key(x) && m[x] == chunk(bytes, x as int) by {}
        lemma_joined_chunks(bytes, m, (k - 1) as nat);
        let x = (k - 1) as u64;
        assert(m.contains_key(x));
        let a = (k - 1) * 128;
        assert(a < bytes.len());
        let b = if k * 128 < bytes.len() { (k * 128) as int } else { bytes.len() as int };
        assert(joined(m, k) == joined(m, (k - 1) as nat) + m[x]);
        assert(joined(m, (k - 1) as nat) == bytes.subrange(0, a as int));
        assert(x as int == k - 1);
        assert(m[x] == chunk(bytes, k - 1));
        assert(m[x] == bytes.subrange(a as int, b));
        assert(joined(m, k) =~= bytes.subrange(0, b));
    }
}

/// Reassembling the fragments `fragment_message` makes gives back the
/// message's bytes.
pub proof fn lemma_reassemble_fragments(bytes: Seq<u8>, fs: Seq<Fragment>)
    requires
        bytes.len() < u64::MAX,
        fragmented(fs, bytes),
    ensures
        assembled(fs) == bytes,
{
    lemma_payload_map_prefix(bytes, fs, fs.len() as int);
    assert(fs.take(fs.len() as int) =~= fs);
    let m = payload_map(fs);
    lemma_joined_chunks(bytes, m, fs.len());
    assert(bytes.subrange(0, bytes.len() as int) =~= bytes);
}

/// An index has a payload in the map exactly when some fragment has it.
proof fn lemma_payload_map_keys(s: Seq<Fragment>, k: u64)
    ensures
        payload_map(s).contains_key(k) <==> exists|i: int| 0 <= i < s.len() && s[i].fragment_index == k,
    decreases s.len(),
{
    if s.len() > 0 {
        lemma_payload_map_keys(s.drop_last(), k);
        if exists|i: int| 0 <= i < s.drop_last().len() && s.drop_last()[i].fragment_index == k {
            let i = choose|i: int| 0 <= i < s.drop_last().len() && s.drop_last()[i].fragment_index == k;
            assert(s[i].fragment_index == k);
        }
        if exists|i: int| 0 <= i < s.len() && s[i].fragment_index == k {
            let i = choose|i: int| 0 <= i < s.len() && s[i].fragment_index == k;
            if i < s.len() - 1 {
                assert(s.drop_last()[i].fragment_index == k);
            }
        }
    }
}

/// When every fragment with index `k` carries `v`, the map gives `v` for `k`.
proof fn lemma_payload_map_value(s: Seq<Fragment>, k: u64, v: Seq<u8>)
    requires
        exists|i: int| 0 <= i < s.len() && s[i].fragment_index == k,
        forall|i: int| 0 <= i < s.len() && (#[trigger] s[i]).fragment_index == k ==> payload(s[i]) == v,
    ensures
        payload_map(s)[k] == v,
    decreases s.len(),
{
    if s.last().fragment_index != k {
        let i = choose|i: int| 0 <= i < s.len() && s[i].fragment_index == k;
        assert(s.drop_last()[i].fragment_index == k);
        assert forall|j: int| 0 <= j < s.drop_last().len() && (#[trigger] s.drop_last()[j]).fragment_index == k implies payload(
            s.drop_last()[j],
        ) == v by {
            assert(s.drop_last()[j] == s[j]);
        }
        lemma_payload_map_value(s.drop_last(), k, v);
    } else {
        assert(payload(s[s.len() - 1]) == v);
    }
}

/// The order in which fragments arrive does not matter: when no two of the
/// fragments `fs` share an index, any rearrangement `gs` of them is as well
/// sized and reassembles into the same bytes (so `reassemble_text` gives the
/// same result on both).
pub proof fn lemma_reassemble_order_free(fs: Seq<Fragment>, gs: Seq<Fragment>)
    requires
        forall|i: int, j: int|
            0 <= i < j < fs.len() ==> (#[trigger] fs[i]).fragment_index != (#[trigger] fs[j]).fragment_index,
        gs.to_multiset() == fs.to_multiset(),
    ensures
        well_sized(gs) == well_sized(fs),
        assembled(gs) == assembled(fs),
{
    broadcast use vstd::seq_lib::group_to_multiset_ensures;

    assert forall|x: Fragment| gs.contains(x) <==> fs.contains(x) by {
        assert(gs.contains(x) <==> gs.to_multiset().count(x) > 0);
        assert(fs.contains(x) <==> fs.to_multiset().count(x) > 0);
    }
    if well_sized(fs) {
        assert forall|i: int| 0 <= i < gs.len() implies (#[trigger] gs[i]).length <= 128 by {
            assert(gs.contains(gs[i]));
            let l = choose|l: int| 0 <= l < fs.len() && fs[l] == gs[i];
            assert(fs[l].length <= 128);
        }
    }
    if well_sized(gs) {
        assert forall|i: int| 0 <= i < fs.len() implies (#[trigger] fs[i]).length <= 128 by {
            assert(fs.contains(fs[i]));
            let l = choose|l: int| 0 <= l < gs.len() && gs[l] == fs[i];
            assert(gs[l].length <= 128);
        }
    }
    let mf = payload_map(fs);
    let mg = payload_map(gs);
    assert forall|k: u64| #[trigger] mg.contains_key(k) <==> mf.contains_key(k) by {
        lemma_payload_map_keys(gs, k);
        lemma_payload_map_keys(fs, k);
        if exists|i: int| 0 <= i < gs.len() && gs[i].fragment_index == k {
            let i = choose|i: int| 0 <= i < gs.len() && gs[i].fragment_index == k;
            assert(gs.contains(gs[i]));
            let j = choose|j: int| 0 <= j < fs.len() && fs[j] == gs[i];
            assert(fs[j].fragment_index == k);
        }
        if exists|j: int| 0 <= j < fs.len() && fs[j].fragment_index == k {
            let j = choose|j: int| 0 <= j < fs.len() && fs[j].fragment_index == k;
            assert(fs.contains(fs[j]));
            let i = choose|i: int| 0 <= i < gs.len() && gs[i] == fs[j];
            assert(gs[i].fragment_index == k);
        }
    }
    assert forall|k: u64| mg.contains_key(k) implies #[trigger] mg[k] == mf[k] by {
        lemma_payload_map_keys(fs, k);
        let j = choose|j: int| 0 <= j < fs.len() && fs[j].fragment_index == k;
        assert forall|i: int| 0 <= i < fs.len() && (#[trigger] fs[i]).fragment_index == k implies payload(fs[i]) == payload(fs[j]) by {
            if i != j {
                if i < j {
                    assert(fs[i].fragment_index != fs[j].fragment_index);
                } else {
                    assert(fs[j].fragment_index != fs[i].fragment_index);
                }
            }
        }
        lemma_payload_map_value(fs, k, payload(fs[j]));
        lemma_payload_map_keys(gs, k);
        assert forall|i: int| 0 <= i < gs.len() && (#[trigger] gs[i]).fragment_index == k implies payload(gs[i]) == payload(fs[j]) by {
            assert(gs.contains(gs[i]));
            let l = choose|l: int| 0 <= l < fs.len() && fs[l] == gs[i];
            if l != j {
                if l < j {
                    assert(fs[l].fragment_index != fs[j].fragment_index);
                } else {
                    assert(fs[j].fragment_index != fs[l].fragment_index);
                }
            }
        }
        lemma_payload_map_value(gs, k, payload(fs[j]));
    }
    assert(mg =~= mf);
}

/// Fragments reassemble into the message whatever order they arrive in:
/// any rearrangement of the fragments of `bytes` gives back `bytes`.
pub proof fn lemma_reassemble_any_order(bytes: Seq<u8>, fs: Seq<Fragment>, gs: Seq<Fragment>)
    requires
        bytes.len() < u64::MAX,
        fragmented(fs, bytes),
        gs.to_multiset() == fs.to_multiset(),
    ensures
        assembled(gs) == bytes,
{
    lemma_reassemble_fragments(bytes, fs);
    assert forall|i: int, j: int| 0 <= i < j < fs.len() implies (#[trigger] fs[i]).fragment_index != (
    #[trigger] fs[j]).fragment_index by {
        assert(fs[i].fragment_index == i);
        assert(fs[j].fragment_index == j);
    }
    lemma_reassemble_order_free(fs, gs);
}

} // verus!
