//! The field layout of an HPACK header block (RFC 7541, section 6), read far
//! enough to find where each field ends, and the check that no dynamic-table
//! size update in a block is cut short or too long.
use vstd::prelude::*;

verus! {

/// The largest value that the first byte of an HPACK integer holds with an
/// `n`-bit prefix (`n` is 4, 5, 6 or 7).
pub open spec fn prefix_mask(n: nat) -> nat {
    if n == 4 {
        15
    } else if n == 5 {
        31
    } else if n == 6 {
        63
    } else {
        127
    }
}

/// The continuation bytes of an HPACK integer from `j` on: each adds its low
/// seven bits at weight `scale`, and one below 128 ends the integer.  `used`
/// bytes have been read so far; an integer longer than five bytes, or one
/// that runs past the block, is an error (`None`).  The value and the number
/// of bytes taken.
pub open spec fn hpack_int_rest(b: Seq<u8>, j: int, used: nat, acc: nat, scale: nat) -> Option<
    (nat, nat),
>
    decreases 5 - used,
{
    if used >= 5 || j < 0 || j >= b.len() {
        None
    } else {
        let c = b[j];
        let acc2 = (acc + (c as nat % 128) * scale) as nat;
        if c < 128 {
            Some((acc2, used + 1))
        } else if used + 1 >= 5 {
            None
        } else {
            hpack_int_rest(b, j + 1, used + 1, acc2, scale * 128)
        }
    }
}

/// The HPACK integer with an `n`-bit prefix that starts at `i`: its value and
/// the number of bytes it takes, or `None` where it is cut short or longer
/// than five bytes.
pub open spec fn hpack_int(b: Seq<u8>, i: int, n: nat) -> Option<(nat, nat)> {
    if i < 0 || i >= b.len() {
        None
    } else {
        let v = ((b[i] as nat) % (prefix_mask(n) + 1)) as nat;
        if v < prefix_mask(n) {
            Some((v, 1))
        } else {
            hpack_int_rest(b, i + 1, 1, v, 1)
        }
    }
}

proof fn lemma_int_rest_len(b: Seq<u8>, j: int, used: nat, acc: nat, scale: nat)
    requires
        used >= 1,
        j >= 1,
        j - used >= 0,
    ensures
        hpack_int_rest(b, j, used, acc, scale) matches Some((v, n)) ==> n > used && j - used + n
            <= b.len(),
    decreases 5 - used,
{
    if !(used >= 5 || j < 0 || j >= b.len()) && b[j] >= 128 && used + 1 < 5 {
        lemma_int_rest_len(b, j + 1, used + 1, (acc + (b[j] as nat % 128) * scale) as nat, scale * 128);
    }
}

/// An integer found at `i` takes at least one byte and lies within the block.
pub proof fn lemma_hpack_int_len(b: Seq<u8>, i: int, n: nat)
    ensures
        hpack_int(b, i, n) matches Some((v, k)) ==> k >= 1 && i + k <= b.len(),
{
    if 0 <= i < b.len() {
        lemma_int_rest_len(b, i + 1, 1, ((b[i] as nat) % (prefix_mask(n) + 1)) as nat, 1);
    }
}

/// Where the string (length with a 7-bit prefix, then the bytes) that starts
/// at `j` ends, or `None` when it is cut short.
pub open spec fn hpack_string_end(b: Seq<u8>, j: int) -> Option<int> {
    match hpack_int(b, j, 7) {
        Some((len, n)) => if j + n + len <= b.len() {
            Some(j + n + len)
        } else {
            None
        },
        None => None,
    }
}

/// Where the field that starts at `i` ends, if the decoder reads past it; the
/// first byte tells its kind: indexed (`1xxxxxxx`, a 7-bit index), a literal
/// with incremental indexing (`01xxxxxx`, 6-bit name index), a dynamic-table
/// size update (`001xxxxx`, 5-bit size), or a literal without indexing or
/// never indexed (`000xxxxx`, 4-bit name index).  A literal with name index
/// zero has a literal name; each literal has a literal value.
pub open spec fn hpack_field_end(b: Seq<u8>, i: int) -> Option<int> {
    if i < 0 || i >= b.len() {
        None
    } else if b[i] >= 128 {
        match hpack_int(b, i, 7) {
            Some((_, n)) => Some(i + n),
            None => None,
        }
    } else if b[i] >= 32 && b[i] < 64 {
        match hpack_int(b, i, 5) {
            Some((_, n)) => Some(i + n),
            None => None,
        }
    } else {
        let p: nat = if b[i] >= 64 {
            6
        } else {
            4
        };
        match hpack_int(b, i, p) {
            None => None,
            Some((idx, n)) => {
                let name_end = if idx == 0 {
                    hpack_string_end(b, i + n)
                } else {
                    Some(i + n)
                };
                match name_end {
                    None => None,
                    Some(e) => hpack_string_end(b, e),
                }
            },
        }
    }
}

/// A field read from `i` ends after `i`, within the block.
pub proof fn lemma_field_end(b: Seq<u8>, i: int)
    ensures
        hpack_field_end(b, i) matches Some(e) ==> i < e <= b.len(),
{
    if 0 <= i < b.len() {
        lemma_hpack_int_len(b, i, 7);
        lemma_hpack_int_len(b, i, 6);
        lemma_hpack_int_len(b, i, 5);
        lemma_hpack_int_len(b, i, 4);
        if let Some((idx, n)) = hpack_int(b, i, if b[i] >= 64 {
            6nat
        } else {
            4nat
        }) {
            lemma_hpack_int_len(b, i + n, 7);
            if let Some(e) = hpack_string_end(b, i + n) {
                lemma_hpack_int_len(b, e, 7);
            }
        }
    }
}

/// The first dynamic-table size update from `i` on, walking the fields by
/// their layout, whose integer is cut short or longer than five bytes (the
/// decoder panics on such an update, if it gets there).  The walk stops where
/// a field is cut short, as the decoder stops there with an error.  A field
/// that the decoder may refuse for another reason (an index outside its
/// tables, bad Huffman code) is walked past: whether the decoder gets to the
/// update is then settled by decoding the bytes before it.
pub open spec fn cut_update_at(b: Seq<u8>, i: int) -> Option<int>
    decreases b.len() - i,
{
    if i < 0 || i >= b.len() {
        None
    } else if b[i] >= 32 && b[i] < 64 && hpack_int(b, i, 5) is None {
        Some(i)
    } else {
        match hpack_field_end(b, i) {
            None => None,
            Some(e) => {
                proof {
                    lemma_field_end(b, i);
                }
                cut_update_at(b, e)
            },
        }
    }
}

/// From `i` on, every dynamic-table size update that the walk reaches is
/// whole (see `cut_update_at`).
pub open spec fn size_updates_whole(b: Seq<u8>, i: int) -> bool {
    cut_update_at(b, i) is None
}

proof fn lemma_int_rest_prefix(b: Seq<u8>, m: int, j: int, used: nat, acc: nat, scale: nat)
    requires
        used >= 1,
        j >= 1,
        j - used >= 0,
        m <= b.len(),
        hpack_int_rest(b, j, used, acc, scale) matches Some((v, k)) && j - used + k <= m,
    ensures
        hpack_int_rest(b.take(m), j, used, acc, scale) == hpack_int_rest(b, j, used, acc, scale),
    decreases 5 - used,
{
    lemma_int_rest_len(b, j, used, acc, scale);
    assert(b.take(m)[j] == b[j]);
    if b[j] >= 128 && used + 1 < 5 {
        lemma_int_rest_prefix(
            b,
            m,
            j + 1,
            used + 1,
            (acc + (b[j] as nat % 128) * scale) as nat,
            scale * 128,
        );
    }
}

proof fn lemma_int_prefix(b: Seq<u8>, m: int, i: int, n: nat)
    requires
        m <= b.len(),
        hpack_int(b, i, n) matches Some((v, k)) && i + k <= m,
    ensures
        hpack_int(b.take(m), i, n) == hpack_int(b, i, n),
{
    lemma_hpack_int_len(b, i, n);
    assert(b.take(m)[i] == b[i]);
    let v = ((b[i] as nat) % (prefix_mask(n) + 1)) as nat;
    if v >= prefix_mask(n) {
        lemma_int_rest_prefix(b, m, i + 1, 1, v, 1);
    }
}

proof fn lemma_string_end_prefix(b: Seq<u8>, m: int, j: int)
    requires
        m <= b.len(),
        hpack_string_end(b, j) matches Some(e) && e <= m,
    ensures
        hpack_string_end(b.take(m), j) == hpack_string_end(b, j),
        hpack_string_end(b, j) matches Some(e) && j < e,
{
    lemma_hpack_int_len(b, j, 7);
    lemma_int_prefix(b, m, j, 7);
}

proof fn lemma_field_end_prefix(b: Seq<u8>, m: int, i: int)
    requires
        m <= b.len(),
        hpack_field_end(b, i) matches Some(e) && e <= m,
    ensures
        hpack_field_end(b.take(m), i) == hpack_field_end(b, i),
{
    lemma_field_end(b, i);
    assert(b.take(m)[i] == b[i]);
    lemma_hpack_int_len(b, i, 7);
    lemma_hpack_int_len(b, i, 6);
    lemma_hpack_int_len(b, i, 5);
    lemma_hpack_int_len(b, i, 4);
    if b[i] >= 128 {
        lemma_int_prefix(b, m, i, 7);
    } else if b[i] >= 32 && b[i] < 64 {
        lemma_int_prefix(b, m, i, 5);
    } else {
        let p: nat = if b[i] >= 64 {
            6
        } else {
            4
        };
        let (idx, n) = hpack_int(b, i, p)->0;
        let e1 = if idx == 0 {
            hpack_string_end(b, i + n)->0
        } else {
            i + n
        };
        if idx == 0 {
            lemma_hpack_int_len(b, i + n, 7);
            let e2 = hpack_string_end(b, e1)->0;
            lemma_string_end_prefix(b, m, e1);
            lemma_string_end_prefix(b, m, i + n);
        } else {
            lemma_string_end_prefix(b, m, e1);
        }
        lemma_int_prefix(b, m, i, p);
    }
}

/// Where the walk finds a cut-short size update at `p`, the bytes before `p`
/// hold none: decoding them cannot panic.
pub proof fn lemma_cut_prefix(b: Seq<u8>, i: int)
    requires
        0 <= i,
        cut_update_at(b, i) is Some,
    ensures
        i <= cut_update_at(b, i)->0 < b.len(),
        cut_update_at(b.take(cut_update_at(b, i)->0), i) is None,
    decreases b.len() - i,
{
    let p = cut_update_at(b, i)->0;
    if b[i] >= 32 && b[i] < 64 && hpack_int(b, i, 5) is None {
        assert(p == i);
    } else {
        let e = hpack_field_end(b, i)->0;
        lemma_field_end(b, i);
        lemma_cut_prefix(b, e);
        assert(cut_update_at(b, e) == Some(p));
        let bp = b.take(p);
        lemma_field_end_prefix(b, p, i);
        assert(bp[i] == b[i]);
        if b[i] >= 32 && b[i] < 64 {
            lemma_hpack_int_len(b, i, 5);
            lemma_int_prefix(b, p, i, 5);
        }
        assert(cut_update_at(bp, e) is None);
    }
}

/// `hpack_int` on exec values: the value fits in 28 bits.
fn read_int(b: &[u8], i: usize, n: u8) -> (r: Option<(u64, usize)>)
    requires
        n == 4 || n == 5 || n == 6 || n == 7,
    ensures
        match hpack_int(b@, i as int, n as nat) {
            Some((v, k)) => v < 0x2000_0000 && r == Some((v as u64, k as usize)),
            None => r is None,
        },
{
    if i >= b.len() {
        return None;
    }
    let mask: u64 = if n == 4 {
        15
    } else if n == 5 {
        31
    } else if n == 6 {
        63
    } else {
        127
    };
    let v: u64 = (b[i] as u64) % (mask + 1);
    if v < mask {
        return Some((v, 1));
    }
    let mut j: usize = i + 1;
    let mut used: usize = 1;
    let mut acc: u64 = v;
    let mut scale: u64 = 1;
    while used < 5
        invariant
            1 <= used <= 5,
            j == i + used,
            i < b@.len(),
            scale <= 2097152,
            used < 5 ==> scale * 128 <= 268435456,
            acc < 128 * scale,
            hpack_int(b@, i as int, n as nat) == hpack_int_rest(
                b@,
                j as int,
                used as nat,
                acc as nat,
                scale as nat,
            ),
            (scale == 1 && used == 1) || (scale == 128 && used == 2) || (scale == 16384 && used
                == 3) || (scale == 2097152 && used == 4),
        decreases 5 - used,
    {
        if j >= b.len() {
            return None;
        }
        let c = b[j];
        let low = (c % 128) as u64;
        assert(low * scale <= 127 * 2097152) by (nonlinear_arith)
            requires
                low <= 127,
                scale <= 2097152,
        ;
        let acc2 = acc + low * scale;
        if c < 128 {
            return Some((acc2, used + 1));
        }
        if used + 1 >= 5 {
            return None;
        }
        acc = acc2;
        scale = scale * 128;
        used = used + 1;
        j = j + 1;
    }
    None
}

/// `hpack_string_end` on exec values.
fn string_end(b: &[u8], j: usize) -> (r: Option<usize>)
    ensures
        match hpack_string_end(b@, j as int) {
            Some(e) => r == Some(e as usize),
            None => r is None,
        },
{
    match read_int(b, j, 7) {
        Some((len, n)) => {
            proof {
                lemma_hpack_int_len(b@, j as int, 7);
            }
            if (len as usize) <= b.len() - j - n {
                Some(j + n + (len as usize))
            } else {
                None
            }
        },
        None => None,
    }
}

/// `hpack_field_end` on exec values.
fn field_end(b: &[u8], i: usize) -> (r: Option<usize>)
    ensures
        match hpack_field_end(b@, i as int) {
            Some(e) => r == Some(e as usize),
            None => r is None,
        },
{
    proof {
        lemma_field_end(b@, i as int);
        lemma_hpack_int_len(b@, i as int, 7);
        lemma_hpack_int_len(b@, i as int, 6);
        lemma_hpack_int_len(b@, i as int, 5);
        lemma_hpack_int_len(b@, i as int, 4);
    }
    if i >= b.len() {
        return None;
    }
    let o = b[i];
    if o >= 128 {
        match read_int(b, i, 7) {
            Some((_, n)) => Some(i + n),
            None => None,
        }
    } else if o >= 32 && o < 64 {
        match read_int(b, i, 5) {
            Some((_, n)) => Some(i + n),
            None => None,
        }
    } else {
        let p: u8 = if o >= 64 {
            6
        } else {
            4
        };
        match read_int(b, i, p) {
            None => None,
            Some((idx, n)) => {
                let name_end = if idx == 0 {
                    string_end(b, i + n)
                } else {
                    Some(i + n)
                };
                match name_end {
                    None => None,
                    Some(e) => {
                        proof {
                            if idx == 0 {
                                lemma_hpack_int_len(b@, (i + n) as int, 7);
                            }
                        }
                        string_end(b, e)
                    },
                }
            },
        }
    }
}

/// Where the walk finds the first cut-short size update (see
/// `cut_update_at`), if anywhere.
pub fn first_cut_update(b: &[u8]) -> (r: Option<usize>)
    ensures
        match r {
            Some(q) => cut_update_at(b@, 0) == Some(q as int),
            None => cut_update_at(b@, 0) is None,
        },
{
    let mut i: usize = 0;
    while i < b.len()
        invariant
            i <= b@.len(),
            cut_update_at(b@, 0) == cut_update_at(b@, i as int),
        decreases b@.len() - i,
    {
        let o = b[i];
        if o >= 32 && o < 64 {
            if read_int(b, i, 5).is_none() {
                return Some(i);
            }
        }
        match field_end(b, i) {
            None => return None,
            Some(e) => {
                proof {
                    lemma_field_end(b@, i as int);
                }
                i = e;
            },
        }
    }
    None
}

/// Whether every dynamic-table size update that the walk reaches is whole
/// (see `size_updates_whole`).
pub fn size_updates_are_whole(b: &[u8]) -> (r: bool)
    ensures
        r == size_updates_whole(b@, 0),
{
    first_cut_update(b).is_none()
}

} // verus!
