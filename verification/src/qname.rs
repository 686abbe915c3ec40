use vstd::prelude::*;

verus! {

/// How many compression pointers one name may chase.  Chains longer than
/// this are treated as malformed, so that a self-referential chain
/// cannot make decoding loop forever.
pub const MAX_JUMPS: usize = 5;

/// ASCII lowercasing of one byte; anything outside `A`..`Z` is kept.
pub open spec fn lower_byte(b: u8) -> u8 {
    if 65 <= b && b <= 90 {
        (b + 32) as u8
    } else {
        b
    }
}

/// ASCII lowercasing of a byte string.
pub open spec fn lower_bytes(s: Seq<u8>) -> Seq<u8> {
    s.map_values(|b: u8| lower_byte(b))
}

/// The labels of a dotted name: the pieces between the dots, in order.
/// The empty name splits into one empty label, exactly as splitting on
/// `.` does.
pub open spec fn split_dots(n: Seq<u8>) -> Seq<Seq<u8>>
    decreases n.len(),
{
    if n.len() == 0 {
        seq![seq![]]
    } else if n[0] == 46 {
        seq![seq![]] + split_dots(n.drop_first())
    } else {
        let rest = split_dots(n.drop_first());
        seq![seq![n[0]] + rest[0]] + rest.drop_first()
    }
}

/// Labels joined back into a dotted name.
pub open spec fn join_labels(ls: Seq<Seq<u8>>) -> Seq<u8>
    decreases ls.len(),
{
    if ls.len() == 0 {
        seq![]
    } else if ls.len() == 1 {
        ls[0]
    } else {
        join_labels(ls.drop_last()) + seq![46u8] + ls.last()
    }
}

/// The wire form of a list of labels: each one length-prefixed.
pub open spec fn encode_labels(ls: Seq<Seq<u8>>) -> Seq<u8>
    decreases ls.len(),
{
    if ls.len() == 0 {
        seq![]
    } else {
        seq![ls[0].len() as u8] + ls[0] + encode_labels(ls.drop_first())
    }
}

/// The wire form of a dotted name: its length-prefixed labels, closed by
/// a zero-length label.  Compression pointers are never produced.
pub open spec fn encode_qname(n: Seq<u8>) -> Seq<u8> {
    encode_labels(split_dots(n)) + seq![0u8]
}

/// Every label short enough for the one-byte length prefix; the name
/// encoder refuses anything longer.
pub open spec fn labels_fit(ls: Seq<Seq<u8>>) -> bool {
    forall|i: int| 0 <= i < ls.len() ==> #[trigger] ls[i].len() <= 63
}

/// A name whose decoding reproduces it exactly: labels of 1 to 63 bytes
/// (so no empty label hides a premature terminator) and no uppercase
/// ASCII (decoding lowercases).
pub open spec fn valid_name(n: Seq<u8>) -> bool {
    &&& forall|i: int|
        0 <= i < split_dots(n).len() ==> 1 <= #[trigger] split_dots(n)[i].len() <= 63
    &&& lower_bytes(n) == n
}

/// The absolute offset a compression pointer spells: the low six bits of
/// the first byte and all of the second.
pub open spec fn ptr_target(len: u8, b2: u8) -> int {
    (len ^ 0xC0) * 256 + b2
}

/// The labels a name decodes to, scanning `data` from `pos` and chasing
/// at most `budget` compression pointers.  `None` is every way decoding
/// can fail: a scan position at or past the capacity, a label running
/// into the capacity, or a pointer found with no budget left.
pub open spec fn parse_labels(data: Seq<u8>, pos: int, budget: nat) -> Option<Seq<Seq<u8>>>
    decreases budget, 512 - pos,
{
    if pos < 0 || pos >= 512 {
        None
    } else {
        let len = data[pos];
        if (len & 0xC0) == 0xC0 {
            if budget == 0 {
                None
            } else if pos + 1 >= 512 {
                None
            } else {
                parse_labels(data, ptr_target(len, data[pos + 1]), (budget - 1) as nat)
            }
        } else if len == 0 {
            Some(Seq::empty())
        } else if pos + 1 + len >= 512 {
            None
        } else {
            match parse_labels(data, pos + 1 + len, budget) {
                Some(rest) => Some(
                    seq![lower_bytes(data.subrange(pos + 1, pos + 1 + len))] + rest,
                ),
                None => None,
            }
        }
    }
}

/// Where the cursor stands after reading a name in place: one past the
/// terminating zero byte, or, when the name ends in a pointer, right
/// after the two pointer bytes — what follows the pointer is earlier
/// message data, not part of this entry.
pub open spec fn name_end(data: Seq<u8>, pos: int) -> Option<int>
    decreases 512 - pos,
{
    if pos < 0 || pos >= 512 {
        None
    } else {
        let len = data[pos];
        if (len & 0xC0) == 0xC0 {
            if pos + 1 >= 512 {
                None
            } else {
                Some(pos + 2)
            }
        } else if len == 0 {
            Some(pos + 1)
        } else if pos + 1 + len >= 512 {
            None
        } else {
            name_end(data, pos + 1 + len)
        }
    }
}

/// Splitting a name whose first dot stands at `j` peels off the first
/// label whole: everything before `j`, then the split of what follows.
pub proof fn lemma_split_dots_prefix(n: Seq<u8>, j: int)
    requires
        0 <= j <= n.len(),
        forall|i: int| 0 <= i < j ==> n[i] != 46,
        j == n.len() || n[j] == 46,
    ensures
        j == n.len() ==> split_dots(n) == seq![n],
        j < n.len() ==> split_dots(n) == seq![n.subrange(0, j)] + split_dots(
            n.subrange(j + 1, n.len() as int),
        ),
    decreases n.len(),
{
    if n.len() == 0 {
        assert(split_dots(n) =~~= seq![n]);
    } else if j == 0 {
        if 0 < n.len() {
            if n[0] == 46 {
                assert(n.subrange(0, 0) =~= Seq::<u8>::empty());
                assert(n.subrange(1, n.len() as int) =~= n.drop_first());
                assert(split_dots(n) =~= seq![n.subrange(0, 0)] + split_dots(
                    n.subrange(1, n.len() as int),
                ));
            }
        }
    } else {
        let t = n.drop_first();
        lemma_split_dots_prefix(t, j - 1);
        let r = split_dots(t);
        if j == n.len() {
            assert(r == seq![t]);
            assert(seq![n[0]] + r[0] =~= n);
            assert(split_dots(n) =~= seq![n]);
        } else {
            assert(t.subrange(0, j - 1) =~= n.subrange(1, j));
            assert(t.subrange(j, t.len() as int) =~= n.subrange(j + 1, n.len() as int));
            assert(r == seq![n.subrange(1, j)] + split_dots(n.subrange(j + 1, n.len() as int)));
            assert(r[0] == n.subrange(1, j));
            assert(seq![n[0]] + r[0] =~= n.subrange(0, j));
            assert(r.drop_first() =~= split_dots(n.subrange(j + 1, n.len() as int)));
            assert(split_dots(n) =~= seq![n.subrange(0, j)] + split_dots(
                n.subrange(j + 1, n.len() as int),
            ));
        }
    }
}

/// The wire form of a name whose first dot stands at `j`: the first
/// label length-prefixed, then the wire form of the rest.
pub proof fn lemma_encode_qname_step(n: Seq<u8>, j: int)
    requires
        0 <= j <= n.len(),
        forall|i: int| 0 <= i < j ==> n[i] != 46,
        j == n.len() || n[j] == 46,
    ensures
        j == n.len() ==> encode_qname(n) == seq![n.len() as u8] + n + seq![0u8],
        j < n.len() ==> encode_qname(n) == seq![j as u8] + n.subrange(0, j) + encode_qname(
            n.subrange(j + 1, n.len() as int),
        ),
{
    lemma_split_dots_prefix(n, j);
    assert(encode_labels(Seq::<Seq<u8>>::empty()) == Seq::<u8>::empty());
    if j == n.len() {
        assert(split_dots(n).drop_first() =~= Seq::<Seq<u8>>::empty());
        assert(split_dots(n)[0] == n);
        assert(encode_qname(n) =~= seq![n.len() as u8] + n + seq![0u8]);
    } else {
        let rest = n.subrange(j + 1, n.len() as int);
        let ls = seq![n.subrange(0, j)] + split_dots(rest);
        assert(ls.drop_first() =~= split_dots(rest));
        assert(ls[0] == n.subrange(0, j));
        assert(encode_qname(n) =~= seq![j as u8] + n.subrange(0, j) + encode_qname(rest));
    }
}

/// Joining one label onto the front of a run of labels.
pub proof fn lemma_join_cons(l: Seq<u8>, ls: Seq<Seq<u8>>)
    ensures
        ls.len() == 0 ==> join_labels(seq![l] + ls) == l,
        ls.len() > 0 ==> join_labels(seq![l] + ls) == l + seq![46u8] + join_labels(ls),
    decreases ls.len(),
{
    let x = seq![l] + ls;
    if ls.len() == 0 {
        assert(x =~~= seq![l]);
    } else if ls.len() == 1 {
        assert(x.drop_last() =~~= seq![l]);
        assert(join_labels(seq![l]) == l);
        assert(x.last() == ls[0]);
        assert(join_labels(ls) == ls[0]);
    } else {
        lemma_join_cons(l, ls.drop_last());
        assert(x.drop_last() =~~= seq![l] + ls.drop_last());
        assert(x.last() == ls.last());
        assert(join_labels(x) == (l + seq![46u8] + join_labels(ls.drop_last())) + seq![
            46u8,
        ] + ls.last());
        assert((l + seq![46u8] + join_labels(ls.drop_last())) + seq![46u8] + ls.last()
            =~= l + seq![46u8] + (join_labels(ls.drop_last()) + seq![46u8] + ls.last()));
    }
}

/// Splitting a name on its dots and joining the pieces again gives the
/// name back, for every name.
pub proof fn lemma_join_split(n: Seq<u8>)
    ensures
        join_labels(split_dots(n)) == n,
    decreases n.len(),
{
    if n.len() == 0 {
        assert(split_dots(n) =~~= seq![Seq::<u8>::empty()]);
        assert(join_labels(seq![Seq::<u8>::empty()]) =~= n);
    } else {
        let t = n.drop_first();
        lemma_join_split(t);
        let r = split_dots(t);
        assert(r.len() >= 1);
        if n[0] == 46 {
            lemma_join_cons(Seq::<u8>::empty(), r);
            assert(Seq::<u8>::empty() + seq![46u8] + join_labels(r) =~= n);
        } else {
            let x = seq![seq![n[0]] + r[0]] + r.drop_first();
            assert(split_dots(n) == x);
            if r.drop_first().len() == 0 {
                assert(join_labels(x) == seq![n[0]] + r[0]);
                assert(r =~~= seq![r[0]]);
                assert(join_labels(r) == r[0]);
                assert(seq![n[0]] + r[0] =~= n);
            } else {
                lemma_join_cons(seq![n[0]] + r[0], r.drop_first());
                lemma_join_cons(r[0], r.drop_first());
                assert(r =~~= seq![r[0]] + r.drop_first());
                assert(join_labels(r) == r[0] + seq![46u8] + join_labels(r.drop_first()));
                assert((seq![n[0]] + r[0]) + seq![46u8] + join_labels(r.drop_first())
                    =~= seq![n[0]] + (r[0] + seq![46u8] + join_labels(r.drop_first())));
            }
        }
    }
}

/// Joining a name's labels after lowercasing them each is lowercasing
/// the whole name: the dots stay dots.
pub proof fn lemma_join_split_lower(n: Seq<u8>)
    ensures
        join_labels(split_dots(n).map_values(|l: Seq<u8>| lower_bytes(l))) == lower_bytes(n),
    decreases n.len(),
{
    let f = |l: Seq<u8>| lower_bytes(l);
    if n.len() == 0 {
        assert(split_dots(n).map_values(f) =~~= seq![lower_bytes(Seq::<u8>::empty())]);
        assert(lower_bytes(Seq::<u8>::empty()) =~= Seq::<u8>::empty());
        assert(lower_bytes(n) =~= Seq::<u8>::empty());
    } else {
        let t = n.drop_first();
        lemma_join_split_lower(t);
        let r = split_dots(t);
        let m = r.map_values(f);
        assert(r.len() >= 1);
        assert(lower_bytes(n) =~= seq![lower_byte(n[0])] + lower_bytes(t));
        if n[0] == 46 {
            assert(split_dots(n).map_values(f) =~~= seq![lower_bytes(Seq::<u8>::empty())]
                + m);
            assert(lower_bytes(Seq::<u8>::empty()) =~= Seq::<u8>::empty());
            lemma_join_cons(Seq::<u8>::empty(), m);
            assert(Seq::<u8>::empty() + seq![46u8] + join_labels(m) =~= lower_bytes(n));
        } else {
            let first = seq![n[0]] + r[0];
            assert(split_dots(n).map_values(f) =~~= seq![lower_bytes(first)]
                + m.drop_first());
            assert(lower_bytes(first) =~= seq![lower_byte(n[0])] + lower_bytes(r[0]));
            if m.drop_first().len() == 0 {
                assert(join_labels(seq![lower_bytes(first)]) == lower_bytes(first));
                assert(m =~~= seq![lower_bytes(r[0])]);
                assert(join_labels(m) == lower_bytes(r[0]));
                assert(lower_bytes(first) =~= lower_bytes(n));
            } else {
                lemma_join_cons(lower_bytes(first), m.drop_first());
                lemma_join_cons(lower_bytes(r[0]), m.drop_first());
                assert(m =~~= seq![lower_bytes(r[0])] + m.drop_first());
                assert(join_labels(m) == lower_bytes(r[0]) + seq![46u8] + join_labels(
                    m.drop_first(),
                ));
                assert(lower_bytes(first) + seq![46u8] + join_labels(m.drop_first())
                    =~= seq![lower_byte(n[0])] + (lower_bytes(r[0]) + seq![46u8]
                    + join_labels(m.drop_first())));
            }
        }
    }
}

/// The position of the first dot of a name, or its length if it has
/// none.
pub open spec fn first_dot(n: Seq<u8>) -> int
    decreases n.len(),
{
    if n.len() == 0 {
        0
    } else if n[0] == 46 {
        0
    } else {
        1 + first_dot(n.drop_first())
    }
}

pub proof fn lemma_first_dot(n: Seq<u8>)
    ensures
        0 <= first_dot(n) <= n.len(),
        forall|i: int| 0 <= i < first_dot(n) ==> n[i] != 46,
        first_dot(n) < n.len() ==> n[first_dot(n)] == 46,
    decreases n.len(),
{
    if n.len() == 0 || n[0] == 46 {
    } else {
        lemma_first_dot(n.drop_first());
        assert forall|i: int| 0 <= i < first_dot(n) implies n[i] != 46 by {
            if i > 0 {
                assert(n.drop_first()[i - 1] == n[i]);
            }
        }
        if first_dot(n) < n.len() {
            assert(n.drop_first()[first_dot(n) - 1] == n[first_dot(n)]);
        }
    }
}

/// Decoding the plain (pointer-free) wire form of a name gives its
/// labels, each lowercased — whatever jump budget remains: a plain name
/// consumes none of it.  The cursor ends one past the terminating zero.
pub proof fn lemma_parse_encoded(data: Seq<u8>, p: int, n: Seq<u8>, budget: nat)
    requires
        data.len() == 512,
        forall|i: int|
            0 <= i < split_dots(n).len() ==> 1 <= (#[trigger] split_dots(n)[i]).len() <= 63,
        0 <= p,
        p + encode_qname(n).len() <= 512,
        data.subrange(p, p + encode_qname(n).len()) == encode_qname(n),
    ensures
        parse_labels(data, p, budget) == Some(
            split_dots(n).map_values(|l: Seq<u8>| lower_bytes(l)),
        ),
        name_end(data, p) == Some(p + encode_qname(n).len()),
    decreases n.len(),
{
    let f = |l: Seq<u8>| lower_bytes(l);
    let enc = encode_qname(n);
    let d = first_dot(n);
    lemma_first_dot(n);
    lemma_split_dots_prefix(n, d);
    lemma_encode_qname_step(n, d);
    assert forall|i: int| 0 <= i < enc.len() implies data[p + i] == enc[i] by {
        assert(data.subrange(p, p + enc.len())[i] == data[p + i]);
    }
    assert(split_dots(n)[0].len() == d);
    assert(1 <= d <= 63);
    let lb = d as u8;
    assert((lb & 0xC0) != 0xC0 && lb != 0) by (bit_vector)
        requires
            1 <= lb <= 63,
    ;
    if d == n.len() {
        assert(enc == seq![lb] + n + seq![0u8]);
        assert(enc.len() == d + 2);
        assert(enc[0] == lb);
        assert(data[p] == lb);
        assert forall|i: int| 0 <= i < d implies data[p + 1 + i] == n[i] by {
            assert(enc[1 + i] == n[i]);
        }
        assert(data.subrange(p + 1, p + 1 + d) =~= n.subrange(0, d));
        assert(n.subrange(0, d) =~= n);
        assert(enc[1 + d] == 0);
        assert(data[p + 1 + d] == 0);
        assert((0u8 & 0xC0u8) != 0xC0u8) by (bit_vector);
        assert(parse_labels(data, p + 1 + d, budget) == Some(Seq::<Seq<u8>>::empty()));
        assert(name_end(data, p + 1 + d) == Some(p + d + 2));
        assert(split_dots(n) =~~= seq![n]);
        assert(seq![lower_bytes(n.subrange(0, d))] + Seq::<Seq<u8>>::empty()
            =~~= split_dots(n).map_values(f));
    } else {
        let rest = n.subrange(d + 1, n.len() as int);
        let enc2 = encode_qname(rest);
        assert(enc == seq![lb] + n.subrange(0, d) + enc2);
        assert(enc.len() == 1 + d + enc2.len());
        assert(enc[0] == lb);
        assert(data[p] == lb);
        assert forall|i: int| 0 <= i < d implies data[p + 1 + i] == n[i] by {
            assert(enc[1 + i] == n.subrange(0, d)[i]);
        }
        assert(data.subrange(p + 1, p + 1 + d) =~= n.subrange(0, d));
        assert forall|i: int|
            0 <= i < split_dots(rest).len() implies 1 <= (#[trigger] split_dots(
            rest,
        )[i]).len() <= 63 by {
            assert(split_dots(rest)[i] == split_dots(n)[i + 1]);
        }
        assert forall|i: int| 0 <= i < enc2.len() implies data[p + 1 + d + i] == enc2[i] by {
            assert(enc[1 + d + i] == enc2[i]);
        }
        assert(data.subrange(p + 1 + d, p + 1 + d + enc2.len()) =~= enc2);
        lemma_parse_encoded(data, p + 1 + d, rest, budget);
        assert(parse_labels(data, p, budget) == Some(
            seq![lower_bytes(data.subrange(p + 1, p + 1 + d))] + split_dots(
                rest,
            ).map_values(f),
        ));
        assert(seq![lower_bytes(n.subrange(0, d))] + split_dots(rest).map_values(f)
            =~~= split_dots(n).map_values(f));
    }
}

/// Decoding a name that stands behind a compression pointer gives
/// exactly what decoding the name at the pointed-to offset gives: the
/// pointer only changes where the bytes are read from, never the name.
/// Here the offset holds a plain name as the encoder writes it.
pub proof fn lemma_pointer_name_equivalence(
    data: Seq<u8>,
    p: int,
    n: Seq<u8>,
    budget: nat,
)
    requires
        data.len() == 512,
        0 <= p,
        p + 1 < 512,
        (data[p] & 0xC0) == 0xC0,
        budget >= 1,
        forall|i: int|
            0 <= i < split_dots(n).len() ==> 1 <= (#[trigger] split_dots(n)[i]).len() <= 63,
        0 <= ptr_target(data[p], data[p + 1]),
        ptr_target(data[p], data[p + 1]) + encode_qname(n).len() <= 512,
        data.subrange(
            ptr_target(data[p], data[p + 1]),
            ptr_target(data[p], data[p + 1]) + encode_qname(n).len(),
        ) == encode_qname(n),
    ensures
        parse_labels(data, p, budget) == parse_labels(
            data,
            ptr_target(data[p], data[p + 1]),
            budget,
        ),
        parse_labels(data, p, budget) == Some(
            split_dots(n).map_values(|l: Seq<u8>| lower_bytes(l)),
        ),
        name_end(data, p) == Some(p + 2),
{
    let off = ptr_target(data[p], data[p + 1]);
    lemma_parse_encoded(data, off, n, (budget - 1) as nat);
    lemma_parse_encoded(data, off, n, budget);
}

/// Decoding labels that end in a compression pointer: the labels
/// before the pointer come out first, then whatever the pointer's
/// target decodes to with the rest of the jump budget, in order — a
/// pointer splices the target's name onto the labels already read, and
/// fails exactly when the target fails.
pub proof fn lemma_labels_then_pointer(data: Seq<u8>, p: int, ls: Seq<Seq<u8>>, budget: nat)
    requires
        data.len() == 512,
        budget >= 1,
        forall|i: int| 0 <= i < ls.len() ==> 1 <= (#[trigger] ls[i]).len() <= 63,
        0 <= p,
        p + encode_labels(ls).len() + 2 <= 512,
        data.subrange(p, p + encode_labels(ls).len()) == encode_labels(ls),
        (data[p + encode_labels(ls).len()] & 0xC0) == 0xC0,
    ensures
        parse_labels(data, p, budget) == (match parse_labels(
            data,
            ptr_target(
                data[p + encode_labels(ls).len()],
                data[p + encode_labels(ls).len() + 1],
            ),
            (budget - 1) as nat,
        ) {
            Some(rest) => Some(ls.map_values(|l: Seq<u8>| lower_bytes(l)) + rest),
            None => None::<Seq<Seq<u8>>>,
        }),
        name_end(data, p) == Some(p + encode_labels(ls).len() + 2),
    decreases ls.len(),
{
    let f = |l: Seq<u8>| lower_bytes(l);
    let enc = encode_labels(ls);
    assert forall|i: int| 0 <= i < enc.len() implies data[p + i] == enc[i] by {
        assert(data.subrange(p, p + enc.len())[i] == data[p + i]);
    }
    if ls.len() == 0 {
        assert(enc == Seq::<u8>::empty());
        let t = ptr_target(data[p], data[p + 1]);
        if parse_labels(data, t, (budget - 1) as nat) is Some {
            let rest = parse_labels(data, t, (budget - 1) as nat).unwrap();
            assert(ls.map_values(f) =~~= Seq::<Seq<u8>>::empty());
            assert(Seq::<Seq<u8>>::empty() + rest =~= rest);
        }
    } else {
        let l0 = ls[0];
        let d = l0.len() as int;
        let tail = ls.drop_first();
        let enc2 = encode_labels(tail);
        assert(enc == seq![l0.len() as u8] + l0 + enc2);
        let lb = l0.len() as u8;
        assert(enc[0] == lb);
        assert(data[p + 0] == enc[0]);
        assert(data[p] == lb);
        assert((lb & 0xC0) != 0xC0 && lb != 0) by (bit_vector)
            requires
                1 <= lb <= 63,
        ;
        assert forall|i: int| 0 <= i < d implies data[p + 1 + i] == l0[i] by {
            assert(enc[1 + i] == l0[i]);
        }
        assert(data.subrange(p + 1, p + 1 + d) =~= l0);
        let p2 = p + 1 + d;
        assert forall|i: int| 0 <= i < enc2.len() implies data[p2 + i] == enc2[i] by {
            assert(enc[1 + d + i] == enc2[i]);
        }
        assert(data.subrange(p2, p2 + enc2.len()) =~= enc2);
        assert forall|i: int|
            0 <= i < tail.len() implies 1 <= (#[trigger] tail[i]).len() <= 63 by {
            assert(tail[i] == ls[i + 1]);
        }
        lemma_labels_then_pointer(data, p2, tail, budget);
        let t = ptr_target(data[p + enc.len()], data[p + enc.len() + 1]);
        if parse_labels(data, t, (budget - 1) as nat) is Some {
            let rest = parse_labels(data, t, (budget - 1) as nat).unwrap();
            assert(seq![lower_bytes(l0)] + (tail.map_values(f) + rest) =~~= ls.map_values(
                f,
            ) + rest);
        }
    }
}

/// Chained pointers resolve to the final concatenation: a name of some
/// labels ending in a pointer, whose target is again labels ending in
/// a pointer, whose target is a plain name, decodes to all three runs
/// of labels in order, each lowercased — exactly what spelling the
/// whole name out would decode to.
pub proof fn lemma_chained_pointers_resolve(
    data: Seq<u8>,
    p: int,
    ls1: Seq<Seq<u8>>,
    q1: int,
    ls2: Seq<Seq<u8>>,
    q2: int,
    n: Seq<u8>,
    budget: nat,
)
    requires
        data.len() == 512,
        budget >= 2,
        forall|i: int| 0 <= i < ls1.len() ==> 1 <= (#[trigger] ls1[i]).len() <= 63,
        forall|i: int| 0 <= i < ls2.len() ==> 1 <= (#[trigger] ls2[i]).len() <= 63,
        forall|i: int|
            0 <= i < split_dots(n).len() ==> 1 <= (#[trigger] split_dots(n)[i]).len() <= 63,
        0 <= p,
        p + encode_labels(ls1).len() + 2 <= 512,
        data.subrange(p, p + encode_labels(ls1).len()) == encode_labels(ls1),
        (data[p + encode_labels(ls1).len()] & 0xC0) == 0xC0,
        q1 == ptr_target(
            data[p + encode_labels(ls1).len()],
            data[p + encode_labels(ls1).len() + 1],
        ),
        q1 + encode_labels(ls2).len() + 2 <= 512,
        data.subrange(q1, q1 + encode_labels(ls2).len()) == encode_labels(ls2),
        (data[q1 + encode_labels(ls2).len()] & 0xC0) == 0xC0,
        q2 == ptr_target(
            data[q1 + encode_labels(ls2).len()],
            data[q1 + encode_labels(ls2).len() + 1],
        ),
        q2 >= 0,
        q2 + encode_qname(n).len() <= 512,
        data.subrange(q2, q2 + encode_qname(n).len()) == encode_qname(n),
    ensures
        parse_labels(data, p, budget) == Some(
            (ls1 + ls2 + split_dots(n)).map_values(|l: Seq<u8>| lower_bytes(l)),
        ),
        name_end(data, p) == Some(p + encode_labels(ls1).len() + 2),
{
    let f = |l: Seq<u8>| lower_bytes(l);
    lemma_parse_encoded(data, q2, n, (budget - 2) as nat);
    lemma_labels_then_pointer(data, q1, ls2, (budget - 1) as nat);
    lemma_labels_then_pointer(data, p, ls1, budget);
    assert(ls1.map_values(f) + (ls2.map_values(f) + split_dots(n).map_values(f)) =~~= (ls1
        + ls2 + split_dots(n)).map_values(f));
}

/// Writing a name and decoding it back gives the name, lowercased; a
/// name already lowercase comes back exactly.
pub proof fn lemma_qname_roundtrip(data: Seq<u8>, p: int, n: Seq<u8>, budget: nat)
    requires
        data.len() == 512,
        forall|i: int|
            0 <= i < split_dots(n).len() ==> 1 <= (#[trigger] split_dots(n)[i]).len() <= 63,
        0 <= p,
        p + encode_qname(n).len() <= 512,
        data.subrange(p, p + encode_qname(n).len()) == encode_qname(n),
    ensures
        parse_labels(data, p, budget) is Some,
        join_labels(parse_labels(data, p, budget).unwrap()) == lower_bytes(n),
        lower_bytes(n) == n ==> join_labels(parse_labels(data, p, budget).unwrap()) == n,
        name_end(data, p) == Some(p + encode_qname(n).len()),
{
    lemma_parse_encoded(data, p, n, budget);
    lemma_join_split_lower(n);
}

/// A name that decodes also has a definite in-place end.
pub proof fn lemma_parse_has_end(data: Seq<u8>, pos: int, budget: nat)
    requires
        parse_labels(data, pos, budget) is Some,
    ensures
        name_end(data, pos) is Some,
        pos < name_end(data, pos).unwrap() <= 512,
    decreases 512 - pos,
{
    let len = data[pos];
    if (len & 0xC0) == 0xC0 || len == 0 {
    } else {
        lemma_parse_has_end(data, pos + 1 + len, budget);
    }
}

} // verus!
