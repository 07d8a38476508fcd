use vstd::prelude::*;

verus! {

/// The mathematical form of a bencoded value.
pub enum Bencode {
    Integer(int),
    Bytes(Seq<u8>),
    List(Seq<Bencode>),
    Dict(Seq<(Seq<u8>, Bencode)>),
}

/// A bencoded value: integer, byte string, list, or dictionary keyed by byte strings.
#[derive(Debug, PartialEq, Eq)]
pub enum BencodeValue {
    Integer(i64),
    Bytes(Vec<u8>),
    List(Vec<BencodeValue>),
    Dict(BencodeDict),
}

/// A bencoded value, by its short name.
pub type Value = BencodeValue;

/// A dictionary whose entries are kept in ascending raw-byte key order, keys unique.
#[derive(Debug, PartialEq, Eq)]
pub struct BencodeDict {
    entries: Vec<(Vec<u8>, BencodeValue)>,
}

// ---------------------------------------------------------------------------
// Model

pub open spec fn model(v: BencodeValue) -> Bencode
    decreases v,
{
    match v {
        BencodeValue::Integer(n) => Bencode::Integer(n as int),
        BencodeValue::Bytes(b) => Bencode::Bytes(b@),
        BencodeValue::List(items) => Bencode::List(model_items(items@)),
        BencodeValue::Dict(d) => Bencode::Dict(dict_model(d)),
    }
}

/// The entries of a dictionary, in their stored order.
pub closed spec fn dict_model(d: BencodeDict) -> Seq<(Seq<u8>, Bencode)>
    decreases d,
{
    model_entries(d.entries@)
}

pub open spec fn model_items(s: Seq<BencodeValue>) -> Seq<Bencode>
    decreases s,
{
    if s.len() == 0 {
        Seq::empty()
    } else {
        model_items(s.drop_last()).push(model(s.last()))
    }
}

pub open spec fn model_entries(s: Seq<(Vec<u8>, BencodeValue)>) -> Seq<(Seq<u8>, Bencode)>
    decreases s,
{
    if s.len() == 0 {
        Seq::empty()
    } else {
        model_entries(s.drop_last()).push((s.last().0@, model(s.last().1)))
    }
}

impl View for BencodeValue {
    type V = Bencode;

    open spec fn view(&self) -> Bencode {
        model(*self)
    }
}

impl View for BencodeDict {
    type V = Seq<(Seq<u8>, Bencode)>;

    open spec fn view(&self) -> Seq<(Seq<u8>, Bencode)> {
        dict_model(*self)
    }
}

pub proof fn lemma_model_items(s: Seq<BencodeValue>)
    ensures
        model_items(s).len() == s.len(),
        forall|i: int| 0 <= i < s.len() ==> #[trigger] model_items(s)[i] == model(s[i]),
    decreases s.len(),
{
    if s.len() > 0 {
        lemma_model_items(s.drop_last());
    }
}

pub proof fn lemma_model_entries(s: Seq<(Vec<u8>, BencodeValue)>)
    ensures
        model_entries(s).len() == s.len(),
        forall|i: int|
            0 <= i < s.len() ==> #[trigger] model_entries(s)[i] == (s[i].0@, model(s[i].1)),
    decreases s.len(),
{
    if s.len() > 0 {
        lemma_model_entries(s.drop_last());
    }
}


impl BencodeValue {
    /// The dictionary, if this value is one.
    pub fn as_dict(&self) -> (r: Option<&BencodeDict>)
        ensures
            match self@ {
                Bencode::Dict(es) => r matches Some(d) && d@ == es,
                _ => r is None,
            },
    {
        match self {
            BencodeValue::Dict(d) => Some(d),
            _ => None,
        }
    }

    /// The byte string, if this value is one.
    pub fn as_bytes(&self) -> (r: Option<&Vec<u8>>)
        ensures
            match self@ {
                Bencode::Bytes(b) => r matches Some(x) && x@ == b,
                _ => r is None,
            },
    {
        match self {
            BencodeValue::Bytes(b) => Some(b),
            _ => None,
        }
    }

    /// The integer, if this value is one.
    pub fn as_integer(&self) -> (r: Option<i64>)
        ensures
            match self@ {
                Bencode::Integer(n) => r == Some(n as i64) && n == n as i64,
                _ => r is None,
            },
    {
        match self {
            BencodeValue::Integer(n) => Some(*n),
            _ => None,
        }
    }

    /// The items, if this value is a list.
    pub fn as_list(&self) -> (r: Option<&Vec<BencodeValue>>)
        ensures
            match self@ {
                Bencode::List(items) => r matches Some(l) && l@.len() == items.len() && forall|i: int|
                    0 <= i < items.len() ==> #[trigger] items[i] == l@[i]@,
                _ => r is None,
            },
    {
        match self {
            BencodeValue::List(l) => {
                proof {
                    lemma_model_items(l@);
                }
                Some(l)
            },
            _ => None,
        }
    }
}

// ---------------------------------------------------------------------------
// Text of numbers

/// The ASCII digit for `d < 10`.
pub open spec fn digit_char(d: int) -> u8 {
    (d + 48) as u8
}

pub open spec fn is_digit(b: u8) -> bool {
    48 <= b <= 57
}

/// Minimal decimal text of a natural number.
pub open spec fn nat_text(n: nat) -> Seq<u8>
    decreases n,
{
    if n < 10 {
        seq![digit_char(n as int)]
    } else {
        nat_text(n / 10).push(digit_char((n % 10) as int))
    }
}

/// Minimal decimal text of an integer, with a leading `-` when negative.
pub open spec fn int_text(n: int) -> Seq<u8> {
    if n < 0 {
        seq![45u8] + nat_text((-n) as nat)
    } else {
        nat_text(n as nat)
    }
}

/// The value of a run of ASCII digits.
pub open spec fn digits_value(s: Seq<u8>) -> nat
    decreases s.len(),
{
    if s.len() == 0 {
        0
    } else {
        10 * digits_value(s.drop_last()) + (s.last() - 48) as nat
    }
}

// ---------------------------------------------------------------------------
// Encoding

/// A byte string on the wire: its length in decimal, `:`, then the bytes.
pub open spec fn encode_bytes(b: Seq<u8>) -> Seq<u8> {
    nat_text(b.len()) + seq![58u8] + b
}

/// The canonical encoding of a value.
pub open spec fn encode(v: Bencode) -> Seq<u8>
    decreases v,
{
    match v {
        Bencode::Integer(n) => seq![105u8] + int_text(n) + seq![101u8],
        Bencode::Bytes(b) => encode_bytes(b),
        Bencode::List(items) => seq![108u8] + encode_items(items) + seq![101u8],
        Bencode::Dict(entries) => seq![100u8] + encode_entries(entries) + seq![101u8],
    }
}

pub open spec fn encode_items(items: Seq<Bencode>) -> Seq<u8>
    decreases items,
{
    if items.len() == 0 {
        Seq::empty()
    } else {
        encode_items(items.drop_last()) + encode(items.last())
    }
}

pub open spec fn encode_entries(entries: Seq<(Seq<u8>, Bencode)>) -> Seq<u8>
    decreases entries,
{
    if entries.len() == 0 {
        Seq::empty()
    } else {
        encode_entries(entries.drop_last()) + encode_bytes(entries.last().0) + encode(
            entries.last().1,
        )
    }
}

// ---------------------------------------------------------------------------
// Key order

/// Raw-byte lexicographic order: `a` sorts strictly before `b`.
pub open spec fn lex_lt(a: Seq<u8>, b: Seq<u8>) -> bool
    decreases a.len(),
{
    if a.len() == 0 {
        b.len() > 0
    } else if b.len() == 0 {
        false
    } else if a[0] != b[0] {
        a[0] < b[0]
    } else {
        lex_lt(a.drop_first(), b.drop_first())
    }
}

pub proof fn lemma_lex_irreflexive(a: Seq<u8>)
    ensures
        !lex_lt(a, a),
    decreases a.len(),
{
    if a.len() > 0 {
        lemma_lex_irreflexive(a.drop_first());
    }
}

pub proof fn lemma_lex_total(a: Seq<u8>, b: Seq<u8>)
    ensures
        a != b ==> lex_lt(a, b) || lex_lt(b, a),
        !(lex_lt(a, b) && lex_lt(b, a)),
    decreases a.len(),
{
    if a.len() > 0 && b.len() > 0 {
        lemma_lex_total(a.drop_first(), b.drop_first());
        if a[0] == b[0] && a != b {
            assert(a =~= seq![a[0]] + a.drop_first());
            assert(b =~= seq![b[0]] + b.drop_first());
        }
    } else if a.len() == 0 && b.len() == 0 {
        assert(a =~= b);
    }
}

pub proof fn lemma_lex_transitive(a: Seq<u8>, b: Seq<u8>, c: Seq<u8>)
    requires
        lex_lt(a, b),
        lex_lt(b, c),
    ensures
        lex_lt(a, c),
    decreases a.len(),
{
    if a.len() > 0 && b.len() > 0 && c.len() > 0 {
        if a[0] == b[0] && b[0] == c[0] {
            lemma_lex_transitive(a.drop_first(), b.drop_first(), c.drop_first());
        }
    }
}

/// Keys strictly ascending in raw-byte order (hence unique).
pub open spec fn keys_sorted(s: Seq<(Seq<u8>, Bencode)>) -> bool {
    forall|i: int, j: int| 0 <= i < j < s.len() ==> lex_lt(#[trigger] s[i].0, #[trigger] s[j].0)
}

pub open spec fn has_key(s: Seq<(Seq<u8>, Bencode)>, k: Seq<u8>) -> bool {
    exists|i: int| 0 <= i < s.len() && #[trigger] s[i].0 == k
}

/// The value stored under `k`, the first such entry.
pub open spec fn lookup(s: Seq<(Seq<u8>, Bencode)>, k: Seq<u8>) -> Option<Bencode>
    decreases s.len(),
{
    if s.len() == 0 {
        None
    } else if s[0].0 == k {
        Some(s[0].1)
    } else {
        lookup(s.drop_first(), k)
    }
}

/// Where `k` belongs: past every key that sorts before it.
pub open spec fn insert_index(s: Seq<(Seq<u8>, Bencode)>, k: Seq<u8>) -> int
    decreases s.len(),
{
    if s.len() == 0 || !lex_lt(s[0].0, k) {
        0
    } else {
        1 + insert_index(s.drop_first(), k)
    }
}

/// `s` with the new key `k` put in its sorted place.
pub open spec fn sorted_insert(s: Seq<(Seq<u8>, Bencode)>, k: Seq<u8>, v: Bencode) -> Seq<
    (Seq<u8>, Bencode),
> {
    s.insert(insert_index(s, k), (k, v))
}

/// `s` with `k` bound to `v`: the old binding replaced, or a new one in sorted place.
pub open spec fn dict_put(s: Seq<(Seq<u8>, Bencode)>, k: Seq<u8>, v: Bencode) -> Seq<
    (Seq<u8>, Bencode),
> {
    if has_key(s, k) {
        s.update(insert_index(s, k), (k, v))
    } else {
        sorted_insert(s, k, v)
    }
}

pub proof fn lemma_insert_index(s: Seq<(Seq<u8>, Bencode)>, k: Seq<u8>)
    requires
        keys_sorted(s),
    ensures
        0 <= insert_index(s, k) <= s.len(),
        forall|i: int| 0 <= i < insert_index(s, k) ==> lex_lt(#[trigger] s[i].0, k),
        forall|i: int|
            insert_index(s, k) <= i < s.len() ==> !lex_lt(#[trigger] s[i].0, k),
        has_key(s, k) <==> (insert_index(s, k) < s.len() && s[insert_index(s, k)].0 == k),
        forall|i: int|
            insert_index(s, k) <= i < s.len() && s[i].0 != k ==> lex_lt(k, #[trigger] s[i].0),
    decreases s.len(),
{
    if s.len() > 0 {
        let t = s.drop_first();
        assert(keys_sorted(t)) by {
            assert forall|i: int, j: int| 0 <= i < j < t.len() implies lex_lt(
                #[trigger] t[i].0,
                #[trigger] t[j].0,
            ) by {
                assert(t[i] == s[i + 1] && t[j] == s[j + 1]);
            }
        }
        lemma_insert_index(t, k);
        let p = insert_index(s, k);
        if lex_lt(s[0].0, k) {
            assert forall|i: int| 0 <= i < p implies lex_lt(#[trigger] s[i].0, k) by {
                if i > 0 {
                    assert(s[i] == t[i - 1]);
                }
            }
            assert forall|i: int| p <= i < s.len() implies !lex_lt(#[trigger] s[i].0, k) by {
                assert(s[i] == t[i - 1]);
            }
            assert forall|i: int| p <= i < s.len() && s[i].0 != k implies lex_lt(
                k,
                #[trigger] s[i].0,
            ) by {
                assert(s[i] == t[i - 1]);
                lemma_lex_total(s[i].0, k);
            }
            if has_key(s, k) {
                let w = choose|w: int| 0 <= w < s.len() && #[trigger] s[w].0 == k;
                if w == 0 {
                    lemma_lex_irreflexive(k);
                } else {
                    assert(t[w - 1].0 == k);
                }
            }
            if p < s.len() && s[p].0 == k {
                assert(t[p - 1].0 == k);
            }
        } else {
            assert forall|i: int| p <= i < s.len() implies !lex_lt(#[trigger] s[i].0, k) by {
                if i > 0 {
                    if lex_lt(s[i].0, k) {
                        lemma_lex_transitive(s[0].0, s[i].0, k);
                    }
                }
            }
            assert forall|i: int| p <= i < s.len() && s[i].0 != k implies lex_lt(
                k,
                #[trigger] s[i].0,
            ) by {
                lemma_lex_total(s[i].0, k);
            }
            if has_key(s, k) {
                let w = choose|w: int| 0 <= w < s.len() && #[trigger] s[w].0 == k;
                if w > 0 && s[0].0 != k {
                    lemma_lex_total(s[0].0, k);
                    lemma_lex_transitive(k, s[0].0, s[w].0);
                    lemma_lex_irreflexive(k);
                }
            }
        }
    }
}

pub proof fn lemma_sorted_insert(s: Seq<(Seq<u8>, Bencode)>, k: Seq<u8>, v: Bencode)
    requires
        keys_sorted(s),
        !has_key(s, k),
    ensures
        keys_sorted(sorted_insert(s, k, v)),
{
    lemma_insert_index(s, k);
    let p = insert_index(s, k);
    let r = sorted_insert(s, k, v);
    assert forall|i: int, j: int| 0 <= i < j < r.len() implies lex_lt(
        #[trigger] r[i].0,
        #[trigger] r[j].0,
    ) by {
        if j < p {
        } else if j == p {
        } else if i < p {
            assert(r[j] == s[j - 1]);
            assert(s[j - 1].0 != k);
            lemma_lex_transitive(s[i].0, k, s[j - 1].0);
        } else if i == p {
            assert(r[j] == s[j - 1]);
            assert(s[j - 1].0 != k);
        } else {
            assert(r[i] == s[i - 1] && r[j] == s[j - 1]);
        }
    }
}

pub proof fn lemma_dict_put(s: Seq<(Seq<u8>, Bencode)>, k: Seq<u8>, v: Bencode)
    requires
        keys_sorted(s),
    ensures
        keys_sorted(dict_put(s, k, v)),
{
    lemma_insert_index(s, k);
    if has_key(s, k) {
        let p = insert_index(s, k);
        let r = dict_put(s, k, v);
        assert forall|i: int, j: int| 0 <= i < j < r.len() implies lex_lt(
            #[trigger] r[i].0,
            #[trigger] r[j].0,
        ) by {
            assert(r[i].0 == s[i].0 && r[j].0 == s[j].0);
        }
    } else {
        lemma_sorted_insert(s, k, v);
    }
}

/// Binding a key that sorts after every present key appends the entry.
pub proof fn lemma_put_last(s: Seq<(Seq<u8>, Bencode)>, k: Seq<u8>, v: Bencode)
    requires
        keys_sorted(s),
        forall|i: int| 0 <= i < s.len() ==> lex_lt(#[trigger] s[i].0, k),
    ensures
        dict_put(s, k, v) == s.push((k, v)),
        keys_sorted(s.push((k, v))),
{
    lemma_insert_index(s, k);
    assert(!has_key(s, k)) by {
        if has_key(s, k) {
            let i = choose|i: int| 0 <= i < s.len() && #[trigger] s[i].0 == k;
            lemma_lex_irreflexive(k);
        }
    }
    if insert_index(s, k) < s.len() {
        assert(lex_lt(s[insert_index(s, k)].0, k));
    }
    assert(sorted_insert(s, k, v) =~= s.push((k, v)));
    lemma_sorted_insert(s, k, v);
}

/// Compares two byte strings in raw-byte lexicographic order.
pub fn compare_bytes(a: &[u8], b: &[u8]) -> (r: core::cmp::Ordering)
    ensures
        (r == core::cmp::Ordering::Less) == lex_lt(a@, b@),
        (r == core::cmp::Ordering::Equal) == (a@ == b@),
        (r == core::cmp::Ordering::Greater) == lex_lt(b@, a@),
{
    let mut i: usize = 0;
    proof {
        assert(a@.skip(0) =~= a@);
        assert(b@.skip(0) =~= b@);
    }
    while i < a.len() && i < b.len()
        invariant
            i <= a@.len(),
            i <= b@.len(),
            a@.subrange(0, i as int) == b@.subrange(0, i as int),
            lex_lt(a@, b@) == lex_lt(a@.skip(i as int), b@.skip(i as int)),
            lex_lt(b@, a@) == lex_lt(b@.skip(i as int), a@.skip(i as int)),
        decreases a@.len() - i,
    {
        if a[i] != b[i] {
            proof {
                lemma_lex_total(a@, b@);
                assert(a@.skip(i as int)[0] == a@[i as int]);
                assert(b@.skip(i as int)[0] == b@[i as int]);
            }
            if a[i] < b[i] {
                return core::cmp::Ordering::Less;
            } else {
                return core::cmp::Ordering::Greater;
            }
        }
        proof {
            assert(a@.skip(i as int).drop_first() =~= a@.skip(i as int + 1));
            assert(b@.skip(i as int).drop_first() =~= b@.skip(i as int + 1));
            assert(a@.subrange(0, i as int + 1) =~= a@.subrange(0, i as int).push(a@[i as int]));
            assert(b@.subrange(0, i as int + 1) =~= b@.subrange(0, i as int).push(b@[i as int]));
        }
        i += 1;
    }
    proof {
        lemma_lex_irreflexive(a@);
        lemma_lex_total(a@, b@);
        if i == a.len() {
            assert(a@.subrange(0, i as int) =~= a@);
        }
        if i == b.len() {
            assert(b@.subrange(0, i as int) =~= b@);
        }
        if i == a.len() && i == b.len() {
            assert(a@ =~= b@);
        }
        if a@ == b@ {
            assert(a@.len() == b@.len());
        }
    }
    if a.len() < b.len() {
        core::cmp::Ordering::Less
    } else if a.len() == b.len() {
        core::cmp::Ordering::Equal
    } else {
        core::cmp::Ordering::Greater
    }
}

impl BencodeDict {
    /// Keys strictly ascending: the order the wire format wants. Every dictionary keeps it.
    #[verifier::type_invariant]
    spec fn keys_in_order(self) -> bool {
        keys_sorted(model_entries(self.entries@))
    }

    /// Keys strictly ascending: the order the wire format wants.
    pub open spec fn wf(&self) -> bool {
        keys_sorted(self@)
    }

    /// An empty dictionary.
    pub fn new() -> (r: BencodeDict)
        ensures
            r@ == Seq::<(Seq<u8>, Bencode)>::empty(),
            r.wf(),
    {
        let r = BencodeDict { entries: Vec::new() };
        assert(r@ =~= Seq::<(Seq<u8>, Bencode)>::empty()) by {
            reveal(dict_model);
        }
        r
    }

    /// The number of entries.
    pub fn len(&self) -> (r: usize)
        ensures
            r == self@.len(),
    {
        proof {
            reveal(dict_model);
            lemma_model_entries(self.entries@);
        }
        self.entries.len()
    }

    /// The entries, in ascending key order.
    pub fn entries(&self) -> (r: &Vec<(Vec<u8>, BencodeValue)>)
        ensures
            model_entries(r@) == self@,
    {
        proof {
            reveal(dict_model);
        }
        &self.entries
    }

    /// Where `key` is or would go, and whether it is there.
    fn find(&self, key: &[u8]) -> (r: (usize, bool))
        requires
            self.wf(),
        ensures
            r.0 == insert_index(self@, key@),
            r.1 == has_key(self@, key@),
    {
        proof {
            reveal(dict_model);
            lemma_model_entries(self.entries@);
            lemma_insert_index(self@, key@);
        }
        let ghost m = self@;
        let mut i: usize = 0;
        while i < self.entries.len()
            invariant
                m == self@,
                m == model_entries(self.entries@),
                m.len() == self.entries@.len(),
                i <= m.len(),
                keys_sorted(m),
                forall|j: int| 0 <= j < i ==> lex_lt(#[trigger] m[j].0, key@),
                forall|j: int| 0 <= j < m.len() ==> #[trigger] m[j] == (self.entries@[j].0@, model(self.entries@[j].1)),
            decreases m.len() - i,
        {
            proof {
                lemma_insert_index(m, key@);
            }
            let c = compare_bytes(self.entries[i].0.as_slice(), key);
            if !matches!(c, core::cmp::Ordering::Less) {
                assert(m[i as int].0 == self.entries@[i as int].0@);
                let found = matches!(c, core::cmp::Ordering::Equal);
                return (i, found);
            }
            i += 1;
        }
        proof {
            lemma_insert_index(m, key@);
        }
        (i, false)
    }

    /// The value stored under `key`, if any.
    pub fn get(&self, key: &[u8]) -> (r: Option<&BencodeValue>)
        ensures
            match r {
                Some(v) => lookup(self@, key@) == Some(v@),
                None => lookup(self@, key@) is None,
            },
    {
        proof {
            reveal(dict_model);
            lemma_model_entries(self.entries@);
        }
        let ghost m = self@;
        assert(m.skip(0) =~= m);
        let mut i: usize = 0;
        while i < self.entries.len()
            invariant
                m == self@,
                m.len() == self.entries@.len(),
                i <= m.len(),
                lookup(m, key@) == lookup(m.skip(i as int), key@),
                forall|j: int| 0 <= j < m.len() ==> #[trigger] m[j] == (self.entries@[j].0@, model(self.entries@[j].1)),
            decreases m.len() - i,
        {
            let c = compare_bytes(self.entries[i].0.as_slice(), key);
            assert(m.skip(i as int)[0] == m[i as int]);
            if matches!(c, core::cmp::Ordering::Equal) {
                return Some(&self.entries[i].1);
            }
            assert(m.skip(i as int).drop_first() =~= m.skip(i as int + 1));
            i += 1;
        }
        None
    }

    /// Puts `key` in its sorted place; it must not be there yet.
    fn insert_new(&mut self, pos: usize, key: Vec<u8>, value: BencodeValue)
        requires
            old(self).wf(),
            !has_key(old(self)@, key@),
            pos == insert_index(old(self)@, key@),
        ensures
            final(self)@ == sorted_insert(old(self)@, key@, value@),
            final(self).wf(),
    {
        proof {
            reveal(dict_model);
            lemma_model_entries(self.entries@);
            lemma_insert_index(self@, key@);
            lemma_sorted_insert(self@, key@, value@);
        }
        let ghost k = key@;
        let ghost v = value@;
        let mut entries: Vec<(Vec<u8>, BencodeValue)> = Vec::new();
        core::mem::swap(&mut entries, &mut self.entries);
        entries.insert(pos, (key, value));
        proof {
            lemma_model_entries(entries@);
            assert(model_entries(entries@) =~= sorted_insert(old(self)@, k, v));
        }
        self.entries = entries;
        proof {
            reveal(dict_model);
        }
    }

    /// Binds `key` to `value`, replacing an earlier binding of the same key.
    pub fn insert(&mut self, key: Vec<u8>, value: BencodeValue)
        ensures
            final(self)@ == dict_put(old(self)@, key@, value@),
            final(self).wf(),
    {
        proof {
            use_type_invariant(&*self);
            reveal(dict_model);
            lemma_dict_put(self@, key@, value@);
            lemma_insert_index(self@, key@);
        }
        let (pos, found) = self.find(key.as_slice());
        if found {
            let ghost k = key@;
            let ghost v = value@;
            proof {
                reveal(dict_model);
                lemma_model_entries(self.entries@);
            }
            let mut entries: Vec<(Vec<u8>, BencodeValue)> = Vec::new();
            core::mem::swap(&mut entries, &mut self.entries);
            entries.remove(pos);
            entries.insert(pos, (key, value));
            proof {
                lemma_model_entries(entries@);
                assert(model_entries(entries@) =~= dict_put(old(self)@, k, v));
            }
            self.entries = entries;
            proof {
                reveal(dict_model);
            }
        } else {
            self.insert_new(pos, key, value);
        }
    }
}

/// A value the wire format can carry and the parser gives back: integers within `i64`,
/// byte strings whose length fits `u64`, dictionary keys strictly ascending.
pub open spec fn canonical(v: Bencode) -> bool
    decreases v,
{
    match v {
        Bencode::Integer(n) => i64::MIN <= n <= i64::MAX,
        Bencode::Bytes(b) => b.len() <= u64::MAX,
        Bencode::List(items) => forall|i: int| 0 <= i < items.len() ==> canonical(#[trigger] items[i]),
        Bencode::Dict(entries) => keys_sorted(entries) && forall|i: int|
            0 <= i < entries.len() ==> (#[trigger] entries[i]).0.len() <= u64::MAX && canonical(
                entries[i].1,
            ),
    }
}

// ---------------------------------------------------------------------------
// Serialisation

fn write_nat(n: u64, buff: &mut Vec<u8>)
    ensures
        final(buff)@ == old(buff)@ + nat_text(n as nat),
    decreases n,
{
    if n >= 10 {
        write_nat(n / 10, buff);
    }
    buff.push(((n % 10) as u8) + 48);
}

impl BencodeValue {
    /// The canonical bencoding of this value.
    pub fn serialize(&self) -> (r: Vec<u8>)
        ensures
            r@ == encode(self@),
            canonical(self@),
        decreases self, 0nat,
    {
        let mut data: Vec<u8> = Vec::new();
        match self {
            BencodeValue::Integer(num) => Self::write_serialized_integer(*num, &mut data),
            BencodeValue::Bytes(bytes) => Self::write_serialized_bytes(bytes.as_slice(), &mut data),
            BencodeValue::List(list) => {
                Self::write_serialized_list(list, &mut data);
                proof {
                    lemma_model_items(list@);
                    let items = model_items(list@);
                    assert forall|k: int| 0 <= k < items.len() implies canonical(#[trigger] items[k]) by {
                        assert(items[k] == list@[k]@);
                    }
                }
            },
            BencodeValue::Dict(dict) => {
                Self::write_serialized_dict(dict, &mut data);
                assert(self@ == Bencode::Dict(dict@));
            },
        }
        assert(data@ =~= encode(self@));
        data
    }

    fn write_serialized_integer(num: i64, buff: &mut Vec<u8>)
        ensures
            final(buff)@ == old(buff)@ + (seq![105u8] + int_text(num as int) + seq![101u8]),
    {
        buff.push(105u8);
        if num < 0 {
            buff.push(45u8);
            let magnitude: u64 = (0i128 - num as i128) as u64;
            write_nat(magnitude, buff);
        } else {
            write_nat(num as u64, buff);
        }
        buff.push(101u8);
        assert(final(buff)@ =~= old(buff)@ + (seq![105u8] + int_text(num as int) + seq![101u8]));
    }

    fn write_serialized_bytes(bytes: &[u8], buff: &mut Vec<u8>)
        ensures
            final(buff)@ == old(buff)@ + encode_bytes(bytes@),
            bytes@.len() <= u64::MAX,
    {
        write_nat(bytes.len() as u64, buff);
        buff.push(58u8);
        let mut i: usize = 0;
        let ghost start = buff@;
        while i < bytes.len()
            invariant
                i <= bytes@.len(),
                buff@ == start + bytes@.subrange(0, i as int),
            decreases bytes@.len() - i,
        {
            buff.push(bytes[i]);
            i += 1;
            assert(buff@ =~= start + bytes@.subrange(0, i as int));
        }
        assert(bytes@.subrange(0, i as int) =~= bytes@);
        assert(buff@ =~= old(buff)@ + encode_bytes(bytes@));
    }

    fn write_serialized_list(list: &Vec<BencodeValue>, buff: &mut Vec<u8>)
        ensures
            final(buff)@ == old(buff)@ + (seq![108u8] + encode_items(model_items(list@))
                + seq![101u8]),
            forall|k: int| 0 <= k < list@.len() ==> canonical(#[trigger] list@[k]@),
        decreases list, 0nat,
    {
        buff.push(108u8);
        let ghost start = buff@;
        let mut i: usize = 0;
        while i < list.len()
            invariant
                i <= list@.len(),
                buff@ == start + encode_items(model_items(list@.subrange(0, i as int))),
                forall|k: int| 0 <= k < i ==> canonical(#[trigger] list@[k]@),
            decreases list@.len() - i,
        {
            let mut item = list[i].serialize();
            buff.append(&mut item);
            proof {
                let s = list@.subrange(0, i as int + 1);
                assert(s.drop_last() =~= list@.subrange(0, i as int));
                lemma_model_items(s);
                assert(model_items(s).drop_last() =~= model_items(s.drop_last())) by {
                    lemma_model_items(s.drop_last());
                }
            }
            i += 1;
            assert(buff@ =~= start + encode_items(model_items(list@.subrange(0, i as int))));
        }
        assert(list@.subrange(0, i as int) =~= list@);
        buff.push(101u8);
        assert(final(buff)@ =~= old(buff)@ + (seq![108u8] + encode_items(model_items(list@))
            + seq![101u8]));
    }

    fn write_serialized_dict(dict: &BencodeDict, buff: &mut Vec<u8>)
        ensures
            final(buff)@ == old(buff)@ + (seq![100u8] + encode_entries(dict@) + seq![101u8]),
            keys_sorted(dict@),
            forall|k: int|
                0 <= k < dict@.len() ==> (#[trigger] dict@[k]).0.len() <= u64::MAX && canonical(
                    dict@[k].1,
                ),
        decreases dict, 0nat,
    {
        proof {
            use_type_invariant(dict);
        }
        buff.push(100u8);
        let ghost start = buff@;
        let entries = &dict.entries;
        assert(dict@ == model_entries(entries@)) by {
            reveal(dict_model);
        }
        let mut i: usize = 0;
        while i < entries.len()
            invariant
                entries == &dict.entries,
                i <= entries@.len(),
                forall|k: int|
                    0 <= k < i ==> (#[trigger] entries@[k]).0@.len() <= u64::MAX && canonical(
                        entries@[k].1@,
                    ),
                buff@ == start + encode_entries(model_entries(entries@.subrange(0, i as int))),
            decreases entries@.len() - i,
        {
            let entry = &entries[i];
            Self::write_serialized_bytes(entry.0.as_slice(), buff);
            let mut value = entry.1.serialize();
            buff.append(&mut value);
            proof {
                let s = entries@.subrange(0, i as int + 1);
                assert(s.drop_last() =~= entries@.subrange(0, i as int));
                assert(s.last() == *entry);
                let m = model_entries(s);
                assert(m == model_entries(s.drop_last()).push((entry.0@, model(entry.1))));
                assert(m.drop_last() =~= model_entries(s.drop_last()));
                assert(m.last() == (entry.0@, model(entry.1)));
            }
            i += 1;
            assert(buff@ =~= start + encode_entries(model_entries(entries@.subrange(0, i as int))));
        }
        assert(entries@.subrange(0, i as int) =~= entries@);
        proof {
            lemma_model_entries(entries@);
            reveal(dict_model);
        }
        buff.push(101u8);
        assert(final(buff)@ =~= old(buff)@ + (seq![100u8] + encode_entries(dict@) + seq![101u8]));
    }
}

// ---------------------------------------------------------------------------
// Parsing

/// Why a byte string is not bencode, with the offset where that became clear.
#[derive(Debug, Clone, Copy, PartialEq, Eq, Structural)]
pub enum BencodeParserError {
    UnexpectedByte { pos: usize, byte: u8 },
    Truncated { pos: usize },
    BadInteger { pos: usize },
    BadLength { pos: usize },
    DuplicateKey { pos: usize },
}

pub open spec fn truncated(data: Seq<u8>) -> BencodeParserError {
    BencodeParserError::Truncated { pos: data.len() as usize }
}

/// The end of the run of ASCII digits that starts at `i`.
pub open spec fn digits_end(data: Seq<u8>, i: int) -> int
    decreases data.len() - i,
{
    if 0 <= i < data.len() && is_digit(data[i]) {
        digits_end(data, i + 1)
    } else {
        i
    }
}

pub const I64_LIMIT: u64 = 0x8000_0000_0000_0000;

/// An integer `i...e` whose `i` is at `pos`.
pub open spec fn parse_integer_at(data: Seq<u8>, pos: int) -> Result<(int, int), BencodeParserError> {
    let start = pos + 1;
    let neg = start < data.len() && data[start] == 45u8;
    let ds = if neg { start + 1 } else { start };
    let de = digits_end(data, ds);
    let mag = digits_value(data.subrange(ds, de));
    if de >= data.len() {
        Err(truncated(data))
    } else if data[de] != 101u8 || de == ds || (data[ds] == 48u8 && de - ds > 1) || (neg && mag
        == 0) || (neg && mag > I64_LIMIT) || (!neg && mag >= I64_LIMIT) {
        Err(BencodeParserError::BadInteger { pos: pos as usize })
    } else {
        Ok((if neg { -mag } else { mag as int }, de + 1))
    }
}

/// A byte string `<len>:<bytes>` whose first length digit is at `pos`.
pub open spec fn parse_bytes_at(data: Seq<u8>, pos: int) -> Result<(Seq<u8>, int), BencodeParserError> {
    let le = digits_end(data, pos);
    let n = digits_value(data.subrange(pos, le));
    if le >= data.len() {
        Err(truncated(data))
    } else if data[le] != 58u8 || n > u64::MAX {
        Err(BencodeParserError::BadLength { pos: pos as usize })
    } else if n > data.len() - (le + 1) {
        Err(truncated(data))
    } else {
        Ok((data.subrange(le + 1, le + 1 + n), le + 1 + n))
    }
}

/// The value that starts at `pos`, and the offset just past it.
pub open spec fn parse_value_at(data: Seq<u8>, pos: int) -> Result<(Bencode, int), BencodeParserError>
    decreases data.len() - pos, 0int,
{
    if pos < 0 || pos >= data.len() {
        Err(truncated(data))
    } else if data[pos] == 105u8 {
        match parse_integer_at(data, pos) {
            Ok((n, end)) => Ok((Bencode::Integer(n), end)),
            Err(e) => Err(e),
        }
    } else if data[pos] == 108u8 {
        parse_items_at(data, pos + 1, Seq::empty())
    } else if data[pos] == 100u8 {
        parse_entries_at(data, pos + 1, Seq::empty())
    } else if is_digit(data[pos]) {
        match parse_bytes_at(data, pos) {
            Ok((b, end)) => Ok((Bencode::Bytes(b), end)),
            Err(e) => Err(e),
        }
    } else {
        Err(BencodeParserError::UnexpectedByte { pos: pos as usize, byte: data[pos] })
    }
}

/// The rest of a list whose items so far are `acc`, from `pos` to its `e`.
pub open spec fn parse_items_at(data: Seq<u8>, pos: int, acc: Seq<Bencode>) -> Result<
    (Bencode, int),
    BencodeParserError,
>
    decreases data.len() - pos, 1int,
{
    if pos < 0 || pos >= data.len() {
        Err(truncated(data))
    } else if data[pos] == 101u8 {
        Ok((Bencode::List(acc), pos + 1))
    } else {
        match parse_value_at(data, pos) {
            Ok((v, next)) => if pos < next <= data.len() {
                parse_items_at(data, next, acc.push(v))
            } else {
                Err(truncated(data))
            },
            Err(e) => Err(e),
        }
    }
}

/// The rest of a dictionary whose entries so far are `acc`, from `pos` to its `e`.
pub open spec fn parse_entries_at(
    data: Seq<u8>,
    pos: int,
    acc: Seq<(Seq<u8>, Bencode)>,
) -> Result<(Bencode, int), BencodeParserError>
    decreases data.len() - pos, 1int,
{
    if pos < 0 || pos >= data.len() {
        Err(truncated(data))
    } else if data[pos] == 101u8 {
        Ok((Bencode::Dict(acc), pos + 1))
    } else if !is_digit(data[pos]) {
        Err(BencodeParserError::UnexpectedByte { pos: pos as usize, byte: data[pos] })
    } else {
        match parse_bytes_at(data, pos) {
            Ok((k, kend)) => if has_key(acc, k) {
                Err(BencodeParserError::DuplicateKey { pos: pos as usize })
            } else if pos < kend <= data.len() {
                match parse_value_at(data, kend) {
                    Ok((v, next)) => if kend < next <= data.len() {
                        parse_entries_at(data, next, sorted_insert(acc, k, v))
                    } else {
                        Err(truncated(data))
                    },
                    Err(e) => Err(e),
                }
            } else {
                Err(truncated(data))
            },
            Err(e) => Err(e),
        }
    }
}

/// A whole input holding exactly one value.
pub open spec fn parse_spec(data: Seq<u8>) -> Result<Bencode, BencodeParserError> {
    match parse_value_at(data, 0) {
        Ok((v, end)) => if end == data.len() {
            Ok(v)
        } else {
            Err(BencodeParserError::UnexpectedByte { pos: end as usize, byte: data[end] })
        },
        Err(e) => Err(e),
    }
}

pub proof fn lemma_digits_end(data: Seq<u8>, i: int)
    requires
        0 <= i <= data.len(),
    ensures
        i <= digits_end(data, i) <= data.len(),
        forall|j: int| i <= j < digits_end(data, i) ==> is_digit(#[trigger] data[j]),
        digits_end(data, i) < data.len() ==> !is_digit(data[digits_end(data, i)]),
    decreases data.len() - i,
{
    if i < data.len() && is_digit(data[i]) {
        lemma_digits_end(data, i + 1);
    }
}

/// A cursor over an input buffer, reading one value at a time.
#[derive(Debug)]
pub struct BencodeParser<'data> {
    data: &'data [u8],
    ptr: usize,
}

impl<'data> BencodeParser<'data> {
    /// The input being read.
    pub closed spec fn input(&self) -> Seq<u8> {
        self.data@
    }

    /// The offset of the next byte to read.
    pub closed spec fn position(&self) -> int {
        self.ptr as int
    }

    /// A cursor at the start of `data`.
    pub fn new(data: &'data [u8]) -> (r: Self)
        ensures
            r.input() == data@,
            r.position() == 0,
    {
        Self { data, ptr: 0 }
    }

    /// Reads the run of digits from `start`: where it ends, and its value unless that exceeds `u64`.
    fn scan_digits(&self, start: usize) -> (r: (usize, u64, bool))
        requires
            start <= self.data@.len(),
        ensures
            r.0 == digits_end(self.data@, start as int),
            r.2 == (digits_value(self.data@.subrange(start as int, r.0 as int)) > u64::MAX),
            !r.2 ==> r.1 == digits_value(self.data@.subrange(start as int, r.0 as int)),
    {
        let mut i: usize = start;
        let mut value: u64 = 0;
        let mut overflow = false;
        assert(self.data@.subrange(start as int, start as int) =~= Seq::<u8>::empty());
        while i < self.data.len() && 48u8 <= self.data[i] && self.data[i] <= 57u8
            invariant
                start <= i <= self.data@.len(),
                digits_end(self.data@, start as int) == digits_end(self.data@, i as int),
                overflow == (digits_value(self.data@.subrange(start as int, i as int)) > u64::MAX),
                !overflow ==> value == digits_value(self.data@.subrange(start as int, i as int)),
            decreases self.data@.len() - i,
        {
            let d = self.data[i] - 48u8;
            let ghost prev = self.data@.subrange(start as int, i as int);
            let ghost next = self.data@.subrange(start as int, i as int + 1);
            assert(next.drop_last() =~= prev);
            assert(digits_value(next) == 10 * digits_value(prev) + d);
            if !overflow {
                if value > (u64::MAX - d as u64) / 10 {
                    overflow = true;
                } else {
                    value = value * 10 + d as u64;
                }
            }
            i += 1;
        }
        (i, value, overflow)
    }

    /// Reads an integer; the cursor is at its `i`.
    fn consume_integer(&mut self) -> (r: Result<i64, BencodeParserError>)
        requires
            old(self).ptr < old(self).data@.len(),
            old(self).data@[old(self).ptr as int] == 105u8,
        ensures
            final(self).data@ == old(self).data@,
            match parse_integer_at(old(self).data@, old(self).ptr as int) {
                Ok((n, end)) => r == Ok::<i64, BencodeParserError>(n as i64) && final(self).ptr
                    == end,
                Err(e) => r == Err::<i64, BencodeParserError>(e),
            },
    {
        let ghost data = self.data@;
        let len = self.data.len();
        let pos = self.ptr;
        let start = pos + 1;
        let neg = start < self.data.len() && self.data[start] == 45u8;
        let ds = if neg { start + 1 } else { start };
        let (de, mag, overflow) = self.scan_digits(ds);
        proof {
            lemma_digits_end(data, ds as int);
        }
        if de >= self.data.len() {
            return Err(BencodeParserError::Truncated { pos: self.data.len() });
        }
        if self.data[de] != 101u8 || de == ds || (self.data[ds] == 48u8 && de - ds > 1) || overflow
            || (neg && mag == 0) || (neg && mag > I64_LIMIT) || (!neg && mag >= I64_LIMIT) {
            return Err(BencodeParserError::BadInteger { pos });
        }
        let n: i64 = if neg {
            if mag == I64_LIMIT {
                i64::MIN
            } else {
                0 - (mag as i64)
            }
        } else {
            mag as i64
        };
        self.ptr = de + 1;
        Ok(n)
    }

    /// Reads a byte string; the cursor is at its first length digit.
    fn consume_bytes(&mut self) -> (r: Result<Vec<u8>, BencodeParserError>)
        requires
            old(self).ptr < old(self).data@.len(),
            is_digit(old(self).data@[old(self).ptr as int]),
        ensures
            final(self).data@ == old(self).data@,
            match parse_bytes_at(old(self).data@, old(self).ptr as int) {
                Ok((b, end)) => r matches Ok(v) && v@ == b && final(self).ptr == end,
                Err(e) => r == Err::<Vec<u8>, BencodeParserError>(e),
            },
    {
        let ghost data = self.data@;
        let pos = self.ptr;
        let (le, n, overflow) = self.scan_digits(pos);
        proof {
            lemma_digits_end(data, pos as int);
        }
        if le >= self.data.len() {
            return Err(BencodeParserError::Truncated { pos: self.data.len() });
        }
        if self.data[le] != 58u8 || overflow {
            return Err(BencodeParserError::BadLength { pos });
        }
        if n > (self.data.len() - (le + 1)) as u64 {
            return Err(BencodeParserError::Truncated { pos: self.data.len() });
        }
        let start = le + 1;
        let end = start + n as usize;
        let mut bytes: Vec<u8> = Vec::new();
        let mut i: usize = start;
        while i < end
            invariant
                start <= i <= end <= self.data@.len(),
                bytes@ == self.data@.subrange(start as int, i as int),
            decreases end - i,
        {
            bytes.push(self.data[i]);
            i += 1;
            assert(bytes@ =~= self.data@.subrange(start as int, i as int));
        }
        self.ptr = end;
        Ok(bytes)
    }

    /// Reads the value at the cursor and moves past it.
    pub fn parse_value(&mut self) -> (r: Result<BencodeValue, BencodeParserError>)
        ensures
            final(self).input() == old(self).input(),
            match parse_value_at(old(self).input(), old(self).position()) {
                Ok((v, end)) => r matches Ok(x) && x@ == v && final(self).position() == end,
                Err(e) => r == Err::<BencodeValue, BencodeParserError>(e),
            },
            r is Ok ==> old(self).position() < final(self).position() <= old(self).input().len(),
        decreases old(self).input().len() - old(self).position(), 0int,
    {
        if self.ptr >= self.data.len() {
            return Err(BencodeParserError::Truncated { pos: self.data.len() });
        }
        let c = self.data[self.ptr];
        if c == 105u8 {
            let ghost data = self.data@;
            let ghost pos = self.ptr as int;
            let n = self.consume_integer()?;
            proof {
                lemma_digits_end(data, pos + 1);
                lemma_digits_end(data, pos + 2);
            }
            Ok(BencodeValue::Integer(n))
        } else if c == 108u8 {
            let list = self.consume_list()?;
            Ok(BencodeValue::List(list))
        } else if c == 100u8 {
            let dict = self.consume_dict()?;
            Ok(BencodeValue::Dict(dict))
        } else if 48u8 <= c && c <= 57u8 {
            let ghost data = self.data@;
            let ghost pos = self.ptr as int;
            let bytes = self.consume_bytes()?;
            proof {
                lemma_digits_end(data, pos);
            }
            Ok(BencodeValue::Bytes(bytes))
        } else {
            Err(BencodeParserError::UnexpectedByte { pos: self.ptr, byte: c })
        }
    }

    fn consume_list(&mut self) -> (r: Result<Vec<BencodeValue>, BencodeParserError>)
        requires
            old(self).ptr < old(self).data@.len(),
            old(self).data@[old(self).ptr as int] == 108u8,
        ensures
            final(self).data@ == old(self).data@,
            match parse_items_at(old(self).data@, old(self).ptr + 1, Seq::empty()) {
                Ok((v, end)) => r matches Ok(x) && v == Bencode::List(model_items(x@))
                    && final(self).ptr == end,
                Err(e) => r == Err::<Vec<BencodeValue>, BencodeParserError>(e),
            },
            r is Ok ==> old(self).ptr < final(self).ptr <= old(self).data@.len(),
        decreases old(self).data@.len() - old(self).ptr - 1, 1int,
    {
        let ghost data = self.data@;
        let ghost pos0 = self.ptr as int;
        let ghost target = parse_items_at(data, pos0 + 1, Seq::empty());
        let len = self.data.len();
        self.ptr += 1;
        let mut list: Vec<BencodeValue> = Vec::new();
        loop
            invariant
                self.data@ == data,
                data == old(self).data@,
                pos0 == old(self).ptr,
                target == parse_items_at(data, pos0 + 1, Seq::empty()),
                pos0 < self.ptr <= data.len(),
                target == parse_items_at(data, self.ptr as int, model_items(list@)),
            decreases data.len() - self.ptr,
        {
            if self.ptr >= self.data.len() {
                return Err(BencodeParserError::Truncated { pos: self.data.len() });
            }
            if self.data[self.ptr] == 101u8 {
                self.ptr += 1;
                return Ok(list);
            }
            let item = self.parse_value()?;
            proof {
                let s = list@.push(item);
                assert(s.drop_last() =~= list@);
            }
            list.push(item);
        }
    }

    fn consume_dict(&mut self) -> (r: Result<BencodeDict, BencodeParserError>)
        requires
            old(self).ptr < old(self).data@.len(),
            old(self).data@[old(self).ptr as int] == 100u8,
        ensures
            final(self).data@ == old(self).data@,
            match parse_entries_at(old(self).data@, old(self).ptr + 1, Seq::empty()) {
                Ok((v, end)) => r matches Ok(x) && v == Bencode::Dict(x@) && x.wf()
                    && final(self).ptr == end,
                Err(e) => r == Err::<BencodeDict, BencodeParserError>(e),
            },
            r is Ok ==> old(self).ptr < final(self).ptr <= old(self).data@.len(),
        decreases old(self).data@.len() - old(self).ptr - 1, 1int,
    {
        let ghost data = self.data@;
        let ghost pos0 = self.ptr as int;
        let ghost target = parse_entries_at(data, pos0 + 1, Seq::empty());
        let len = self.data.len();
        self.ptr += 1;
        let mut dict = BencodeDict::new();
        loop
            invariant
                self.data@ == data,
                data == old(self).data@,
                pos0 == old(self).ptr,
                target == parse_entries_at(data, pos0 + 1, Seq::empty()),
                pos0 < self.ptr <= data.len(),
                dict.wf(),
                target == parse_entries_at(data, self.ptr as int, dict@),
            decreases data.len() - self.ptr,
        {
            if self.ptr >= self.data.len() {
                return Err(BencodeParserError::Truncated { pos: self.data.len() });
            }
            let c = self.data[self.ptr];
            if c == 101u8 {
                self.ptr += 1;
                return Ok(dict);
            }
            if !(48u8 <= c && c <= 57u8) {
                return Err(BencodeParserError::UnexpectedByte { pos: self.ptr, byte: c });
            }
            let key_pos = self.ptr;
            let key = self.consume_bytes()?;
            proof {
                lemma_digits_end(data, key_pos as int);
            }
            let (slot, found) = dict.find(key.as_slice());
            if found {
                return Err(BencodeParserError::DuplicateKey { pos: key_pos });
            }
            let value = self.parse_value()?;
            dict.insert_new(slot, key, value);
        }
    }
}

/// Parses an input that holds exactly one bencoded value.
pub fn parse(data: &[u8]) -> (r: Result<BencodeValue, BencodeParserError>)
    ensures
        match parse_spec(data@) {
            Ok(v) => r matches Ok(x) && x@ == v,
            Err(e) => r == Err::<BencodeValue, BencodeParserError>(e),
        },
{
    let mut parser = BencodeParser::new(data);
    let value = parser.parse_value()?;
    if parser.ptr < data.len() {
        return Err(BencodeParserError::UnexpectedByte { pos: parser.ptr, byte: data[parser.ptr] });
    }
    Ok(value)
}

} // verus!
