//! Dense identifiers for area codes. Raw middle- and small-area codes are
//! byte strings; the engine works on dense identifiers instead. The
//! identifiers assigned here follow the lexicographic order of the codes, so
//! iterating areas by ascending identifier is the ascending lexical
//! enumeration the pipeline promises.

use vstd::prelude::*;

verus! {

/// Strict lexicographic order on byte strings: a proper prefix precedes its
/// extensions, and the first differing byte decides.
pub open spec fn lex_lt(a: Seq<u8>, b: Seq<u8>) -> bool
    decreases a.len(),
{
    if b.len() == 0 {
        false
    } else if a.len() == 0 {
        true
    } else if a[0] < b[0] {
        true
    } else if a[0] > b[0] {
        false
    } else {
        lex_lt(a.drop_first(), b.drop_first())
    }
}

/// With equal prefixes of length `k`, the order is decided by the suffixes.
proof fn lemma_lex_common_prefix(a: Seq<u8>, b: Seq<u8>, k: int)
    requires
        0 <= k <= a.len(),
        k <= b.len(),
        a.take(k) == b.take(k),
    ensures
        lex_lt(a, b) <==> lex_lt(a.skip(k), b.skip(k)),
    decreases k,
{
    if k == 0 {
        assert(a.skip(0) =~= a);
        assert(b.skip(0) =~= b);
    } else {
        assert(a[0] == a.take(k)[0]);
        assert(b[0] == b.take(k)[0]);
        assert(a.drop_first().take(k - 1) =~= a.take(k).drop_first());
        assert(b.drop_first().take(k - 1) =~= b.take(k).drop_first());
        lemma_lex_common_prefix(a.drop_first(), b.drop_first(), k - 1);
        assert(a.drop_first().skip(k - 1) =~= a.skip(k));
        assert(b.drop_first().skip(k - 1) =~= b.skip(k));
    }
}

/// The order is transitive.
pub proof fn lemma_lex_trans(a: Seq<u8>, b: Seq<u8>, c: Seq<u8>)
    requires
        lex_lt(a, b),
        lex_lt(b, c),
    ensures
        lex_lt(a, c),
    decreases a.len(),
{
    if a.len() > 0 {
        assert(b.len() > 0);
        assert(c.len() > 0);
        if a[0] == b[0] && b[0] == c[0] {
            lemma_lex_trans(a.drop_first(), b.drop_first(), c.drop_first());
        }
    }
}

/// Three-way lexicographic comparison of byte strings: -1, 0 or 1 as the
/// first is below, equal to or above the second.
pub fn lex_cmp(a: &Vec<u8>, b: &Vec<u8>) -> (r: i32)
    ensures
        -1 <= r <= 1,
        (r == -1) <==> lex_lt(a@, b@),
        (r == 0) <==> a@ == b@,
        (r == 1) <==> lex_lt(b@, a@),
{
    let na = a.len();
    let nb = b.len();
    let min = if na < nb {
        na
    } else {
        nb
    };
    let mut k: usize = 0;
    while k < min
        invariant
            na == a@.len(),
            nb == b@.len(),
            min <= na && min <= nb,
            (min == na || min == nb),
            k <= min,
            a@.take(k as int) =~= b@.take(k as int),
        decreases min - k,
    {
        let x = a[k];
        let y = b[k];
        if x < y {
            proof {
                lemma_lex_common_prefix(a@, b@, k as int);
                lemma_lex_common_prefix(b@, a@, k as int);
                assert(a@.skip(k as int)[0] == x);
                assert(b@.skip(k as int)[0] == y);
                assert(lex_lt(a@.skip(k as int), b@.skip(k as int)));
                assert(!lex_lt(b@.skip(k as int), a@.skip(k as int)));
                assert(a@[k as int] != b@[k as int]);
            }
            return -1;
        }
        if x > y {
            proof {
                lemma_lex_common_prefix(a@, b@, k as int);
                lemma_lex_common_prefix(b@, a@, k as int);
                assert(a@.skip(k as int)[0] == x);
                assert(b@.skip(k as int)[0] == y);
                assert(lex_lt(b@.skip(k as int), a@.skip(k as int)));
                assert(!lex_lt(a@.skip(k as int), b@.skip(k as int)));
                assert(a@[k as int] != b@[k as int]);
            }
            return 1;
        }
        proof {
            assert(a@.take(k as int + 1) =~= a@.take(k as int).push(x));
            assert(b@.take(k as int + 1) =~= b@.take(k as int).push(y));
        }
        k += 1;
    }
    proof {
        lemma_lex_common_prefix(a@, b@, min as int);
        lemma_lex_common_prefix(b@, a@, min as int);
    }
    if na == nb {
        proof {
            assert(a@.take(min as int) =~= a@);
            assert(b@.take(min as int) =~= b@);
            assert(a@.skip(min as int).len() == 0);
            assert(b@.skip(min as int).len() == 0);
        }
        0
    } else if na < nb {
        proof {
            assert(a@.skip(min as int).len() == 0);
            assert(b@.skip(min as int).len() > 0);
            assert(a@.len() != b@.len());
        }
        -1
    } else {
        proof {
            assert(b@.skip(min as int).len() == 0);
            assert(a@.skip(min as int).len() > 0);
            assert(a@.len() != b@.len());
        }
        1
    }
}

/// Whether one of the first `upto` codes spells the given byte string.
pub open spec fn code_in(codes: Seq<Vec<u8>>, upto: int, v: Seq<u8>) -> bool {
    exists|l: int| 0 <= l < upto && (#[trigger] codes[l])@ == v
}

/// Whether the dictionary holds the given byte string.
pub open spec fn in_dict(dict: Seq<Vec<u8>>, v: Seq<u8>) -> bool {
    exists|d: int| 0 <= d < dict.len() && (#[trigger] dict[d])@ == v
}

/// A byte-for-byte copy.
fn copy_bytes(v: &Vec<u8>) -> (r: Vec<u8>)
    ensures
        r@ == v@,
{
    let mut r: Vec<u8> = Vec::new();
    let n = v.len();
    let mut i: usize = 0;
    while i < n
        invariant
            n == v@.len(),
            i <= n,
            r@ =~= v@.take(i as int),
        decreases n - i,
    {
        r.push(v[i]);
        proof {
            assert(v@.take(i as int + 1) =~= v@.take(i as int).push(v@[i as int]));
        }
        i += 1;
    }
    proof {
        assert(v@.take(n as int) =~= v@);
    }
    r
}

/// The position of the code in the dictionary, when present.
fn find_code(dict: &Vec<Vec<u8>>, c: &Vec<u8>) -> (r: Option<usize>)
    ensures
        (match r {
            Some(d) => d < dict@.len() && dict@[d as int]@ == c@,
            None => forall|d: int| 0 <= d < dict@.len() ==> (#[trigger] dict@[d])@ != c@,
        }),
{
    let n = dict.len();
    let mut d: usize = 0;
    while d < n
        invariant
            n == dict@.len(),
            d <= n,
            forall|l: int| 0 <= l < d ==> (#[trigger] dict@[l])@ != c@,
        decreases n - d,
    {
        if lex_cmp(&dict[d], c) == 0 {
            return Some(d);
        }
        d += 1;
    }
    None
}

/// Assigns dense identifiers to a list of raw area codes. The result pairs
/// each input row with its identifier, and returns the dictionary of
/// distinct codes in strictly ascending lexicographic order; a code's
/// identifier is its dictionary position, so ascending identifiers follow
/// ascending codes.
pub fn assign_area_ids(codes: &Vec<Vec<u8>>) -> (r: (Vec<usize>, Vec<Vec<u8>>))
    ensures
        r.0@.len() == codes@.len(),
        forall|x: int, y: int|
            0 <= x < y < r.1@.len() ==> lex_lt((#[trigger] r.1@[x])@, (#[trigger] r.1@[y])@),
        forall|i: int|
            0 <= i < codes@.len() ==> (#[trigger] r.0@[i]) < r.1@.len() && r.1@[r.0@[i] as int]@
                == codes@[i]@,
        forall|d: int| 0 <= d < r.1@.len() ==> code_in(codes@, codes@.len() as int, (#[trigger] r.1@[d])@),
{
    let n = codes.len();
    // First pass: collect the distinct codes in sorted order.
    let mut dict: Vec<Vec<u8>> = Vec::new();
    let mut i: usize = 0;
    while i < n
        invariant
            n == codes@.len(),
            i <= n,
            forall|x: int, y: int|
                0 <= x < y < dict@.len() ==> lex_lt((#[trigger] dict@[x])@, (#[trigger] dict@[y])@),
            forall|l: int| 0 <= l < i ==> in_dict(dict@, (#[trigger] codes@[l])@),
            forall|d: int| 0 <= d < dict@.len() ==> code_in(codes@, i as int, (#[trigger] dict@[d])@),
        decreases n - i,
    {
        let c = &codes[i];
        let dlen = dict.len();
        let mut pos: usize = 0;
        while pos < dlen && lex_cmp(&dict[pos], c) == -1
            invariant
                dlen == dict@.len(),
                pos <= dlen,
                forall|x: int| 0 <= x < pos ==> lex_lt((#[trigger] dict@[x])@, c@),
            decreases dlen - pos,
        {
            pos += 1;
        }
        let present = pos < dlen && lex_cmp(&dict[pos], c) == 0;
        if present {
            proof {
                assert(dict@[pos as int]@ == c@);
                assert(in_dict(dict@, codes@[i as int]@));
                assert forall|d: int| 0 <= d < dict@.len() implies code_in(
                    codes@,
                    i as int + 1,
                    (#[trigger] dict@[d])@,
                ) by {
                    let l = choose|l: int| 0 <= l < i && (#[trigger] codes@[l])@ == dict@[d]@;
                    assert(codes@[l]@ == dict@[d]@);
                }
            }
        } else {
            let cc = copy_bytes(c);
            let ghost d0 = dict@;
            proof {
                if pos < dlen {
                    assert(!lex_lt(d0[pos as int]@, c@));
                    assert(d0[pos as int]@ != c@);
                    assert(lex_lt(c@, d0[pos as int]@));
                }
            }
            dict.insert(pos, cc);
            proof {
                assert forall|x: int, y: int| 0 <= x < y < dict@.len() implies lex_lt(
                    (#[trigger] dict@[x])@,
                    (#[trigger] dict@[y])@,
                ) by {
                    if y < pos {
                        assert(dict@[x] == d0[x] && dict@[y] == d0[y]);
                    } else if x < pos && y == pos {
                        assert(dict@[x] == d0[x]);
                        assert(lex_lt(d0[x]@, c@));
                    } else if x < pos && y > pos {
                        assert(dict@[x] == d0[x] && dict@[y] == d0[y - 1]);
                        assert(lex_lt(d0[x]@, c@));
                        if y - 1 == pos {
                            assert(lex_lt(c@, d0[pos as int]@));
                            lemma_lex_trans(d0[x]@, c@, d0[pos as int]@);
                        }
                    } else if x == pos {
                        assert(dict@[y] == d0[y - 1]);
                        assert(lex_lt(c@, d0[pos as int]@));
                        if y - 1 > pos {
                            lemma_lex_trans(c@, d0[pos as int]@, d0[y - 1]@);
                        }
                    } else {
                        assert(dict@[x] == d0[x - 1] && dict@[y] == d0[y - 1]);
                    }
                }
                assert(dict@[pos as int]@ == codes@[i as int]@);
                assert forall|d: int| 0 <= d < dict@.len() implies code_in(
                    codes@,
                    i as int + 1,
                    (#[trigger] dict@[d])@,
                ) by {
                    if d < pos {
                        assert(dict@[d] == d0[d]);
                        assert(code_in(codes@, i as int, d0[d]@));
                        let l = choose|l: int| 0 <= l < i && (#[trigger] codes@[l])@ == d0[d]@;
                        assert(codes@[l]@ == dict@[d]@);
                    } else if d == pos {
                        assert(codes@[i as int]@ == dict@[d]@);
                    } else {
                        assert(dict@[d] == d0[d - 1]);
                        assert(code_in(codes@, i as int, d0[d - 1]@));
                        let l = choose|l: int| 0 <= l < i && (#[trigger] codes@[l])@ == d0[d - 1]@;
                        assert(codes@[l]@ == dict@[d]@);
                    }
                }
                assert forall|l: int| 0 <= l < i + 1 implies in_dict(
                    dict@,
                    (#[trigger] codes@[l])@,
                ) by {
                    if l < i {
                        assert(in_dict(d0, codes@[l]@));
                        let d = choose|d: int| 0 <= d < d0.len() && (#[trigger] d0[d])@ == codes@[l]@;
                        if d < pos {
                            assert(dict@[d]@ == codes@[l]@);
                        } else {
                            assert(dict@[d + 1] == d0[d]);
                            assert(dict@[d + 1]@ == codes@[l]@);
                        }
                    } else {
                        assert(dict@[pos as int]@ == codes@[l]@);
                    }
                }
            }
        }
        i += 1;
    }
    // Second pass: look each row's code up.
    let mut ids: Vec<usize> = Vec::new();
    let mut i2: usize = 0;
    while i2 < n
        invariant
            n == codes@.len(),
            i2 <= n,
            ids@.len() == i2,
            forall|l: int| 0 <= l < n ==> in_dict(dict@, (#[trigger] codes@[l])@),
            forall|l: int|
                0 <= l < i2 ==> (#[trigger] ids@[l]) < dict@.len() && dict@[ids@[l] as int]@
                    == codes@[l]@,
        decreases n - i2,
    {
        let found = find_code(&dict, &codes[i2]);
        match found {
            Some(d) => {
                ids.push(d);
            },
            None => {
                proof {
                    assert(in_dict(dict@, codes@[i2 as int]@));
                    let d = choose|d: int|
                        0 <= d < dict@.len() && (#[trigger] dict@[d])@ == codes@[i2 as int]@;
                    assert(false);
                }
                ids.push(0);
            },
        }
        i2 += 1;
    }
    (ids, dict)
}

} // verus!
