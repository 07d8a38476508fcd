use vstd::prelude::*;

use crate::bencode::{
    Bencode, canonical, lemma_digits_end, lemma_sorted_insert, digits_end, digits_value, digit_char, encode, encode_bytes, encode_entries,
    encode_items, has_key, insert_index, int_text, is_digit, keys_sorted, lemma_insert_index,
    lemma_lex_irreflexive, nat_text, parse_bytes_at, parse_entries_at, parse_integer_at,
    parse_items_at, parse_spec, parse_value_at, sorted_insert, I64_LIMIT,
};

verus! {

proof fn lemma_nat_text(m: nat)
    ensures
        nat_text(m).len() >= 1,
        forall|j: int| 0 <= j < nat_text(m).len() ==> is_digit(#[trigger] nat_text(m)[j]),
        digits_value(nat_text(m)) == m,
        nat_text(m)[0] == 48u8 ==> m == 0 && nat_text(m).len() == 1,
    decreases m,
{
    let t = nat_text(m);
    if m >= 10 {
        lemma_nat_text(m / 10);
        assert(t.drop_last() =~= nat_text(m / 10));
        assert(t.last() == digit_char((m % 10) as int));
        assert((digit_char((m % 10) as int) - 48) as nat == m % 10);
        assert(digits_value(t) == 10 * digits_value(t.drop_last()) + (t.last() - 48) as nat);
        assert(10 * (m / 10) + m % 10 == m);
    } else {
        assert(t.drop_last() =~= Seq::<u8>::empty());
        assert((digit_char(m as int) - 48) as nat == m);
        assert(digits_value(t) == 10 * digits_value(t.drop_last()) + (t.last() - 48) as nat);
    }
}

proof fn lemma_digits_run(data: Seq<u8>, i: int, k: int)
    requires
        0 <= i,
        0 <= k,
        i + k <= data.len(),
        forall|j: int| i <= j < i + k ==> is_digit(#[trigger] data[j]),
        i + k == data.len() || !is_digit(data[i + k]),
    ensures
        digits_end(data, i) == i + k,
    decreases k,
{
    if k > 0 {
        lemma_digits_run(data, i + 1, k - 1);
    }
}

proof fn lemma_items_split(a: Seq<Bencode>, b: Seq<Bencode>)
    ensures
        encode_items(a + b) == encode_items(a) + encode_items(b),
    decreases b.len(),
{
    if b.len() == 0 {
        assert(a + b =~= a);
    } else {
        lemma_items_split(a, b.drop_last());
        assert((a + b).drop_last() =~= a + b.drop_last());
    }
}

proof fn lemma_entries_split(a: Seq<(Seq<u8>, Bencode)>, b: Seq<(Seq<u8>, Bencode)>)
    ensures
        encode_entries(a + b) == encode_entries(a) + encode_entries(b),
    decreases b.len(),
{
    if b.len() == 0 {
        assert(a + b =~= a);
    } else {
        lemma_entries_split(a, b.drop_last());
        assert((a + b).drop_last() =~= a + b.drop_last());
    }
}

/// The first byte of an encoding is never the `e` that ends a list or dictionary.
proof fn lemma_encode_first(v: Bencode)
    ensures
        encode(v).len() >= 1,
        encode(v)[0] != 101u8,
        encode(v)[0] == 105u8 || encode(v)[0] == 108u8 || encode(v)[0] == 100u8 || is_digit(
            encode(v)[0],
        ),
{
    match v {
        Bencode::Bytes(b) => {
            lemma_nat_text(b.len());
        },
        _ => {},
    }
}

proof fn lemma_parse_bytes(data: Seq<u8>, pos: int, b: Seq<u8>)
    requires
        0 <= pos,
        pos + encode_bytes(b).len() <= data.len(),
        data.subrange(pos, pos + encode_bytes(b).len()) == encode_bytes(b),
        b.len() <= u64::MAX,
    ensures
        parse_bytes_at(data, pos) == Ok::<(Seq<u8>, int), crate::bencode::BencodeParserError>(
            (b, pos + encode_bytes(b).len()),
        ),
{
    let t = nat_text(b.len());
    lemma_nat_text(b.len());
    let e = encode_bytes(b);
    assert forall|j: int| 0 <= j < e.len() implies data[pos + j] == e[j] by {
        assert(data.subrange(pos, pos + e.len())[j] == data[pos + j]);
    }
    assert forall|j: int| pos <= j < pos + t.len() implies is_digit(#[trigger] data[j]) by {
        assert(data[pos + (j - pos)] == e[j - pos]);
    }
    assert(data[pos + t.len()] == e[t.len() as int]);
    lemma_digits_run(data, pos, t.len() as int);
    assert(data.subrange(pos, pos + t.len()) =~= t) by {
        assert forall|j: int| 0 <= j < t.len() implies data.subrange(pos, pos + t.len())[j]
            == t[j] by {
            assert(data[pos + j] == e[j]);
        }
    }
    let le = pos + t.len();
    assert(data.subrange(le + 1, le + 1 + b.len()) =~= b) by {
        assert forall|j: int| 0 <= j < b.len() implies data.subrange(le + 1, le + 1 + b.len())[j]
            == b[j] by {
            assert(data[pos + (t.len() + 1 + j)] == e[t.len() + 1 + j]);
        }
    }
}

proof fn lemma_parse_integer(data: Seq<u8>, pos: int, n: int)
    requires
        0 <= pos,
        i64::MIN <= n <= i64::MAX,
        pos + encode(Bencode::Integer(n)).len() <= data.len(),
        data.subrange(pos, pos + encode(Bencode::Integer(n)).len()) == encode(Bencode::Integer(n)),
    ensures
        parse_integer_at(data, pos) == Ok::<(int, int), crate::bencode::BencodeParserError>(
            (n, pos + encode(Bencode::Integer(n)).len()),
        ),
{
    let e = encode(Bencode::Integer(n));
    let neg = n < 0;
    let m: nat = if neg { (-n) as nat } else { n as nat };
    let t = nat_text(m);
    lemma_nat_text(m);
    let off: int = if neg { 2 } else { 1 };
    assert(e =~= seq![105u8] + int_text(n) + seq![101u8]);
    assert(e.len() == off + t.len() + 1);
    assert forall|j: int| 0 <= j < t.len() implies e[off + j] == t[j] by {}
    assert forall|j: int| 0 <= j < e.len() implies data[pos + j] == e[j] by {
        assert(data.subrange(pos, pos + e.len())[j] == data[pos + j]);
    }
    let ds = pos + off;
    assert forall|j: int| ds <= j < ds + t.len() implies is_digit(#[trigger] data[j]) by {
        assert(data[pos + (j - pos)] == e[j - pos]);
        assert(e[off + (j - ds)] == t[j - ds]);
    }
    assert(data[ds + t.len()] == e[off + t.len()]);
    lemma_digits_run(data, ds, t.len() as int);
    assert(data.subrange(ds, ds + t.len()) =~= t) by {
        assert forall|j: int| 0 <= j < t.len() implies data.subrange(ds, ds + t.len())[j] == t[j] by {
            assert(data[pos + (off + j)] == e[off + j]);
        }
    }
    assert(data[pos + 1] == e[1]);
    assert(data[ds] == e[off + 0]);
    if !neg {
        assert(is_digit(t[0]));
    }
    assert(I64_LIMIT == 0x8000_0000_0000_0000);
}

proof fn lemma_parse_value(data: Seq<u8>, pos: int, v: Bencode)
    requires
        canonical(v),
        0 <= pos,
        pos + encode(v).len() <= data.len(),
        data.subrange(pos, pos + encode(v).len()) == encode(v),
    ensures
        parse_value_at(data, pos) == Ok::<(Bencode, int), crate::bencode::BencodeParserError>(
            (v, pos + encode(v).len()),
        ),
    decreases v, 0int,
{
    let e = encode(v);
    lemma_encode_first(v);
    assert(data[pos] == e[0]) by {
        assert(data.subrange(pos, pos + e.len())[0] == data[pos]);
    }
    match v {
        Bencode::Integer(n) => {
            lemma_parse_integer(data, pos, n);
        },
        Bencode::Bytes(b) => {
            lemma_parse_bytes(data, pos, b);
        },
        Bencode::List(items) => {
            let body = encode_items(items);
            assert(e =~= seq![108u8] + body + seq![101u8]);
            assert(data.subrange(pos + 1, pos + 1 + body.len() + 1) =~= body + seq![101u8]) by {
                assert forall|j: int| 0 <= j < body.len() + 1 implies data.subrange(
                    pos + 1,
                    pos + 1 + body.len() + 1,
                )[j] == (body + seq![101u8])[j] by {
                    assert(data.subrange(pos, pos + e.len())[1 + j] == e[1 + j]);
                }
            }
            assert(items.take(0) =~= Seq::<Bencode>::empty());
            assert(items.skip(0) =~= items);
            lemma_parse_items(data, pos + 1, items, 0);
        },
        Bencode::Dict(entries) => {
            let body = encode_entries(entries);
            assert(e =~= seq![100u8] + body + seq![101u8]);
            assert(data.subrange(pos + 1, pos + 1 + body.len() + 1) =~= body + seq![101u8]) by {
                assert forall|j: int| 0 <= j < body.len() + 1 implies data.subrange(
                    pos + 1,
                    pos + 1 + body.len() + 1,
                )[j] == (body + seq![101u8])[j] by {
                    assert(data.subrange(pos, pos + e.len())[1 + j] == e[1 + j]);
                }
            }
            assert(entries.take(0) =~= Seq::<(Seq<u8>, Bencode)>::empty());
            assert(entries.skip(0) =~= entries);
            lemma_parse_entries(data, pos + 1, entries, 0);
        },
    }
}

proof fn lemma_parse_items(data: Seq<u8>, pos: int, items: Seq<Bencode>, k: int)
    requires
        0 <= k <= items.len(),
        forall|i: int| 0 <= i < items.len() ==> canonical(#[trigger] items[i]),
        0 <= pos,
        pos + encode_items(items.skip(k)).len() + 1 <= data.len(),
        data.subrange(pos, pos + encode_items(items.skip(k)).len() + 1) == encode_items(
            items.skip(k),
        ) + seq![101u8],
    ensures
        parse_items_at(data, pos, items.take(k)) == Ok::<
            (Bencode, int),
            crate::bencode::BencodeParserError,
        >((Bencode::List(items), pos + encode_items(items.skip(k)).len() + 1)),
    decreases items, items.len() - k,
{
    let rest = items.skip(k);
    let body = encode_items(rest);
    let w = body + seq![101u8];
    assert forall|j: int| 0 <= j < w.len() implies data[pos + j] == w[j] by {
        assert(data.subrange(pos, pos + w.len())[j] == data[pos + j]);
    }
    if k == items.len() {
        assert(rest =~= Seq::<Bencode>::empty());
        assert(items.take(k) =~= items);
        assert(data[pos] == w[0]);
    } else {
        let x = items[k];
        let tail = items.skip(k + 1);
        assert(rest =~= seq![x] + tail);
        lemma_items_split(seq![x], tail);
        assert(seq![x].drop_last() =~= Seq::<Bencode>::empty());
        assert(encode_items(Seq::<Bencode>::empty()) == Seq::<u8>::empty());
        assert(encode_items(seq![x]) =~= encode(x));
        let ex = encode(x);
        assert(body =~= ex + encode_items(tail));
        lemma_encode_first(x);
        assert(data[pos] == w[0]);
        assert(data.subrange(pos, pos + ex.len()) =~= ex) by {
            assert forall|j: int| 0 <= j < ex.len() implies data.subrange(pos, pos + ex.len())[j]
                == ex[j] by {
                assert(data[pos + j] == w[j]);
            }
        }
        assert(items[k] == x);
        lemma_parse_value(data, pos, x);
        let next = pos + ex.len();
        let tb = encode_items(tail);
        assert(data.subrange(next, next + tb.len() + 1) =~= tb + seq![101u8]) by {
            assert forall|j: int| 0 <= j < tb.len() + 1 implies data.subrange(
                next,
                next + tb.len() + 1,
            )[j] == (tb + seq![101u8])[j] by {
                assert(data[pos + (ex.len() + j)] == w[ex.len() + j]);
            }
        }
        assert(items.take(k).push(x) =~= items.take(k + 1));
        lemma_parse_items(data, next, items, k + 1);
    }
}

proof fn lemma_parse_entries(
    data: Seq<u8>,
    pos: int,
    entries: Seq<(Seq<u8>, Bencode)>,
    k: int,
)
    requires
        0 <= k <= entries.len(),
        keys_sorted(entries),
        forall|i: int|
            0 <= i < entries.len() ==> (#[trigger] entries[i]).0.len() <= u64::MAX && canonical(
                entries[i].1,
            ),
        0 <= pos,
        pos + encode_entries(entries.skip(k)).len() + 1 <= data.len(),
        data.subrange(pos, pos + encode_entries(entries.skip(k)).len() + 1) == encode_entries(
            entries.skip(k),
        ) + seq![101u8],
    ensures
        parse_entries_at(data, pos, entries.take(k)) == Ok::<
            (Bencode, int),
            crate::bencode::BencodeParserError,
        >((Bencode::Dict(entries), pos + encode_entries(entries.skip(k)).len() + 1)),
    decreases entries, entries.len() - k,
{
    let rest = entries.skip(k);
    let body = encode_entries(rest);
    let w = body + seq![101u8];
    assert forall|j: int| 0 <= j < w.len() implies data[pos + j] == w[j] by {
        assert(data.subrange(pos, pos + w.len())[j] == data[pos + j]);
    }
    if k == entries.len() {
        assert(rest =~= Seq::<(Seq<u8>, Bencode)>::empty());
        assert(entries.take(k) =~= entries);
        assert(data[pos] == w[0]);
    } else {
        let (key, x) = entries[k];
        let tail = entries.skip(k + 1);
        assert(rest =~= seq![(key, x)] + tail);
        lemma_entries_split(seq![(key, x)], tail);
        assert(seq![(key, x)].drop_last() =~= Seq::<(Seq<u8>, Bencode)>::empty());
        assert(encode_entries(Seq::<(Seq<u8>, Bencode)>::empty()) == Seq::<u8>::empty());
        let ek = encode_bytes(key);
        let ex = encode(x);
        assert(encode_entries(seq![(key, x)]) =~= ek + ex);
        assert(body =~= ek + ex + encode_entries(tail));
        lemma_nat_text(key.len());
        assert(data[pos] == w[0]);
        assert(w[0] == ek[0]);
        assert(data.subrange(pos, pos + ek.len()) =~= ek) by {
            assert forall|j: int| 0 <= j < ek.len() implies data.subrange(pos, pos + ek.len())[j]
                == ek[j] by {
                assert(data[pos + j] == w[j]);
            }
        }
        lemma_parse_bytes(data, pos, key);
        let kend = pos + ek.len();
        assert(data.subrange(kend, kend + ex.len()) =~= ex) by {
            assert forall|j: int| 0 <= j < ex.len() implies data.subrange(kend, kend + ex.len())[j]
                == ex[j] by {
                assert(data[pos + (ek.len() + j)] == w[ek.len() + j]);
            }
        }
        lemma_parse_value(data, kend, x);
        let acc = entries.take(k);
        assert(keys_sorted(acc));
        assert forall|i: int| 0 <= i < acc.len() implies crate::bencode::lex_lt(
            #[trigger] acc[i].0,
            key,
        ) by {
            assert(acc[i] == entries[i]);
        }
        assert(!has_key(acc, key)) by {
            if has_key(acc, key) {
                let i = choose|i: int| 0 <= i < acc.len() && #[trigger] acc[i].0 == key;
                lemma_lex_irreflexive(key);
            }
        }
        lemma_insert_index(acc, key);
        assert(insert_index(acc, key) == acc.len()) by {
            if insert_index(acc, key) < acc.len() {
                let p = insert_index(acc, key);
                assert(crate::bencode::lex_lt(acc[p].0, key));
            }
        }
        assert(sorted_insert(acc, key, x) =~= entries.take(k + 1));
        let next = kend + ex.len();
        let tb = encode_entries(tail);
        assert(data.subrange(next, next + tb.len() + 1) =~= tb + seq![101u8]) by {
            assert forall|j: int| 0 <= j < tb.len() + 1 implies data.subrange(
                next,
                next + tb.len() + 1,
            )[j] == (tb + seq![101u8])[j] by {
                assert(data[pos + (ek.len() + ex.len() + j)] == w[ek.len() + ex.len() + j]);
            }
        }
        lemma_parse_entries(data, next, entries, k + 1);
    }
}

/// Parsing the encoding of a canonical value gives the value back. Every `BencodeValue` is
/// canonical: `serialize` states it of the value it encodes.
pub proof fn lemma_round_trip(v: Bencode)
    requires
        canonical(v),
    ensures
        parse_spec(encode(v)) == Ok::<Bencode, crate::bencode::BencodeParserError>(v),
{
    let e = encode(v);
    assert(e.subrange(0, e.len() as int) =~= e);
    lemma_parse_value(e, 0, v);
}

/// A canonically encoded input is reproduced exactly by encoding what it parses to.
pub proof fn lemma_canonical_round_trip(b: Seq<u8>, v: Bencode)
    requires
        canonical(v),
        b == encode(v),
    ensures
        parse_spec(b) matches Ok(w) && encode(w) == b,
{
    lemma_round_trip(v);
}

proof fn lemma_value_canonical(data: Seq<u8>, pos: int)
    ensures
        parse_value_at(data, pos) matches Ok((v, _)) ==> canonical(v),
    decreases data.len() - pos, 0int,
{
    if 0 <= pos < data.len() {
        assert(I64_LIMIT == 0x8000_0000_0000_0000);
        lemma_digits_end(data, pos);
        if data[pos] == 105u8 && pos + 1 <= data.len() {
            lemma_digits_end(data, pos + 1);
            if pos + 2 <= data.len() {
                lemma_digits_end(data, pos + 2);
            }
        }
        if data[pos] == 108u8 {
            lemma_items_canonical(data, pos + 1, Seq::empty());
        } else if data[pos] == 100u8 {
            lemma_entries_canonical(data, pos + 1, Seq::empty());
        }
    }
}

proof fn lemma_items_canonical(data: Seq<u8>, pos: int, acc: Seq<Bencode>)
    requires
        forall|i: int| 0 <= i < acc.len() ==> canonical(#[trigger] acc[i]),
    ensures
        parse_items_at(data, pos, acc) matches Ok((v, _)) ==> canonical(v),
    decreases data.len() - pos, 1int,
{
    if 0 <= pos < data.len() && data[pos] != 101u8 {
        lemma_value_canonical(data, pos);
        if let Ok((x, next)) = parse_value_at(data, pos) {
            if pos < next <= data.len() {
                let acc2 = acc.push(x);
                assert forall|i: int| 0 <= i < acc2.len() implies canonical(#[trigger] acc2[i]) by {
                    if i < acc.len() {
                        assert(acc2[i] == acc[i]);
                    }
                }
                lemma_items_canonical(data, next, acc2);
            }
        }
    }
}

proof fn lemma_entries_canonical(data: Seq<u8>, pos: int, acc: Seq<(Seq<u8>, Bencode)>)
    requires
        keys_sorted(acc),
        forall|i: int|
            0 <= i < acc.len() ==> (#[trigger] acc[i]).0.len() <= u64::MAX && canonical(acc[i].1),
    ensures
        parse_entries_at(data, pos, acc) matches Ok((v, _)) ==> canonical(v),
    decreases data.len() - pos, 1int,
{
    if 0 <= pos < data.len() && data[pos] != 101u8 && is_digit(data[pos]) {
        if let Ok((k, kend)) = parse_bytes_at(data, pos) {
            lemma_digits_end(data, pos);
            if !has_key(acc, k) && pos < kend <= data.len() {
                lemma_value_canonical(data, kend);
                if let Ok((x, next)) = parse_value_at(data, kend) {
                    if kend < next <= data.len() {
                        let acc2 = sorted_insert(acc, k, x);
                        lemma_sorted_insert(acc, k, x);
                        lemma_insert_index(acc, k);
                        let p = insert_index(acc, k);
                        assert forall|i: int| 0 <= i < acc2.len() implies (#[trigger] acc2[i]).0.len()
                            <= u64::MAX && canonical(acc2[i].1) by {
                            if i < p {
                                assert(acc2[i] == acc[i]);
                            } else if i > p {
                                assert(acc2[i] == acc[i - 1]);
                            } else {
                                assert(acc2[i] == (k, x));
                                assert(k.len() <= u64::MAX);
                                assert(canonical(x));
                            }
                        }
                        lemma_entries_canonical(data, next, acc2);
                    }
                }
            }
        }
    }
}

/// Every value the parser accepts is canonical: its dictionaries are in ascending key
/// order whatever order the input had, so encoding it and parsing again gives it back.
pub proof fn lemma_parsed_values_are_canonical(data: Seq<u8>)
    ensures
        parse_spec(data) matches Ok(v) ==> canonical(v) && parse_spec(encode(v)) == Ok::<
            Bencode,
            crate::bencode::BencodeParserError,
        >(v),
{
    lemma_value_canonical(data, 0);
    if let Ok(v) = parse_spec(data) {
        lemma_round_trip(v);
    }
}

} // verus!
