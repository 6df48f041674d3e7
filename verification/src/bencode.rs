//! Bencode reader for the metainfo file: integers `i..e`, length-prefixed
//! byte strings, lists `l..e` and dictionaries `d..e`. A malformed document
//! is reported as `None`; nothing is consumed from the buffer in that case.

use vstd::prelude::*;

use crate::msg::copy_range;

verus! {

/// A decoded bencode value.
#[derive(Debug)]
pub enum Item {
    Integer(usize),
    String(Vec<u8>),
    List(Vec<Item>),
    Dict(Vec<(Vec<u8>, Item)>),
}

/// The mathematical form of a bencode value.
pub ghost enum ItemV {
    Int { value: int },
    Str { bytes: Seq<u8> },
    List { items: Seq<ItemV> },
    Dict { pairs: Seq<(Seq<u8>, ItemV)> },
}

/// The mathematical value a decoded item stands for.
pub open spec fn item_view(it: Item) -> ItemV
    decreases it,
{
    match it {
        Item::Integer(v) => ItemV::Int { value: v as int },
        Item::String(s) => ItemV::Str { bytes: s@ },
        Item::List(items) => ItemV::List { items: items_view(items@) },
        Item::Dict(pairs) => ItemV::Dict { pairs: pairs_view(pairs@) },
    }
}

/// The views of a sequence of decoded items.
pub open spec fn items_view(l: Seq<Item>) -> Seq<ItemV>
    decreases l,
{
    Seq::new(
        l.len(),
        |i: int| if 0 <= i < l.len() {
            item_view(l[i])
        } else {
            ItemV::Int { value: 0 }
        },
    )
}

/// The views of a sequence of key/value pairs.
pub open spec fn pairs_view(l: Seq<(Vec<u8>, Item)>) -> Seq<(Seq<u8>, ItemV)>
    decreases l,
{
    Seq::new(
        l.len(),
        |i: int| if 0 <= i < l.len() {
            (l[i].0@, item_view(l[i].1))
        } else {
            (Seq::empty(), ItemV::Int { value: 0 })
        },
    )
}

impl Item {
    /// The integer carried by an `Integer` item.
    pub fn get_integer(&self) -> (r: usize)
        requires
            self is Integer,
        ensures
            item_view(*self) == (ItemV::Int { value: r as int }),
    {
        match self {
            Item::Integer(i) => *i,
            _ => {
                proof {
                    assert(false);
                }
                0
            }
        }
    }

    /// A copy of the bytes carried by a `String` item.
    pub fn get_string(&self) -> (r: Vec<u8>)
        requires
            self is String,
        ensures
            item_view(*self) == (ItemV::Str { bytes: r@ }),
    {
        match self {
            Item::String(s) => {
                let r = copy_range(s, 0, s.len());
                proof {
                    assert(r@ =~= s@);
                }
                r
            }
            _ => {
                proof {
                    assert(false);
                }
                Vec::new()
            }
        }
    }

    /// The elements of a `List` item.
    pub fn get_list(&self) -> (r: &Vec<Item>)
        requires
            self is List,
        ensures
            item_view(*self) == (ItemV::List { items: items_view(r@) }),
    {
        match self {
            Item::List(l) => l,
            _ => {
                proof {
                    assert(false);
                }
                unreached()
            }
        }
    }

    /// The key/value pairs of a `Dict` item, in their on-file order.
    pub fn get_dict(&self) -> (r: &Vec<(Vec<u8>, Item)>)
        requires
            self is Dict,
        ensures
            item_view(*self) == (ItemV::Dict { pairs: pairs_view(r@) }),
    {
        match self {
            Item::Dict(d) => d,
            _ => {
                proof {
                    assert(false);
                }
                unreached()
            }
        }
    }
}

pub open spec fn is_digit(c: u8) -> bool {
    48 <= c <= 57
}

/// How many consecutive decimal digits stand at `from`.
pub open spec fn digit_run_len(s: Seq<u8>, from: int) -> int
    decreases s.len() - from,
{
    if from < 0 || from >= s.len() || !is_digit(s[from]) {
        0
    } else {
        1 + digit_run_len(s, from + 1)
    }
}

/// The number a run of decimal digits denotes.
pub open spec fn digits_val(d: Seq<u8>) -> int
    decreases d.len(),
{
    if d.len() == 0 {
        0
    } else {
        digits_val(d.take(d.len() - 1)) * 10 + (d.last() - 48)
    }
}

/// The digit run at `from` is in bounds, all digits, and maximal.
pub proof fn lemma_digit_run(s: Seq<u8>, from: int)
    requires
        0 <= from <= s.len(),
    ensures
        0 <= digit_run_len(s, from),
        from + digit_run_len(s, from) <= s.len(),
        forall|j: int| from <= j < from + digit_run_len(s, from) ==> is_digit(#[trigger] s[j]),
    decreases s.len() - from,
{
    if from < s.len() && is_digit(s[from]) {
        lemma_digit_run(s, from + 1);
    }
}

/// A scan that stopped at the first non-digit measures exactly the digit run.
pub proof fn lemma_digit_run_of_scan(s: Seq<u8>, from: int, end: int)
    requires
        0 <= from <= end <= s.len(),
        forall|j: int| from <= j < end ==> is_digit(#[trigger] s[j]),
        end == s.len() || !is_digit(s[end]),
    ensures
        digit_run_len(s, from) == end - from,
    decreases end - from,
{
    if from < end {
        lemma_digit_run_of_scan(s, from + 1, end);
    }
}

pub proof fn lemma_digits_val_nonneg(d: Seq<u8>)
    requires
        forall|j: int| 0 <= j < d.len() ==> is_digit(#[trigger] d[j]),
    ensures
        digits_val(d) >= 0,
    decreases d.len(),
{
    if d.len() > 0 {
        lemma_digits_val_nonneg(d.take(d.len() - 1));
    }
}

/// An integer `i<digits>e`, rejected when its value cannot be held.
pub open spec fn spec_parse_int(s: Seq<u8>) -> Option<(int, int)> {
    if s.len() < 1 || s[0] != 105 {
        None
    } else {
        let k = digit_run_len(s, 1);
        if k == 0 {
            None
        } else if 1 + k < s.len() && s[1 + k] == 101 {
            let v = digits_val(s.subrange(1, 1 + k));
            if v <= usize::MAX {
                Some((v, k + 2))
            } else {
                None
            }
        } else {
            None
        }
    }
}

/// A byte string `<digits>:<bytes>`.
pub open spec fn spec_parse_str(s: Seq<u8>) -> Option<(Seq<u8>, int)> {
    let k = digit_run_len(s, 0);
    if k == 0 {
        None
    } else if k < s.len() && s[k] == 58 {
        let l = digits_val(s.subrange(0, k));
        if s.len() >= k + 1 + l {
            Some((s.subrange(k + 1, k + 1 + l), k + 1 + l))
        } else {
            None
        }
    } else {
        None
    }
}

/// One bencode value at the front of `s`, with the count of bytes it spans.
pub open spec fn spec_parse_item(s: Seq<u8>) -> Option<(ItemV, int)>
    decreases s.len(), 1int,
{
    if s.len() == 0 {
        None
    } else if s[0] == 105 {
        match spec_parse_int(s) {
            Some((v, n)) => Some((ItemV::Int { value: v }, n)),
            None => None,
        }
    } else if s[0] == 108 {
        match spec_parse_items(s.skip(1)) {
            Some((items, n)) => Some((ItemV::List { items }, n + 1)),
            None => None,
        }
    } else if s[0] == 100 {
        match spec_parse_pairs(s.skip(1)) {
            Some((pairs, n)) => Some((ItemV::Dict { pairs }, n + 1)),
            None => None,
        }
    } else if is_digit(s[0]) {
        match spec_parse_str(s) {
            Some((bytes, n)) => Some((ItemV::Str { bytes }, n)),
            None => None,
        }
    } else {
        None
    }
}

/// List elements up to and including the closing `e`.
pub open spec fn spec_parse_items(s: Seq<u8>) -> Option<(Seq<ItemV>, int)>
    decreases s.len(), 2int,
{
    if s.len() == 0 {
        None
    } else if s[0] == 101 {
        Some((Seq::empty(), 1))
    } else {
        match spec_parse_item(s) {
            Some((it, n)) => if 1 <= n <= s.len() {
                match spec_parse_items(s.skip(n)) {
                    Some((rest, m)) => Some((seq![it] + rest, n + m)),
                    None => None,
                }
            } else {
                None
            },
            None => None,
        }
    }
}

/// Dictionary entries up to and including the closing `e`.
pub open spec fn spec_parse_pairs(s: Seq<u8>) -> Option<(Seq<(Seq<u8>, ItemV)>, int)>
    decreases s.len(), 2int,
{
    if s.len() == 0 {
        None
    } else if s[0] == 101 {
        Some((Seq::empty(), 1))
    } else {
        match spec_parse_str(s) {
            Some((key, n1)) => if 1 <= n1 <= s.len() {
                match spec_parse_item(s.skip(n1)) {
                    Some((v, n2)) => if 1 <= n2 <= s.len() - n1 {
                        match spec_parse_pairs(s.skip(n1 + n2)) {
                            Some((rest, n3)) => Some(
                                (seq![(key, v)] + rest, n1 + n2 + n3),
                            ),
                            None => None,
                        }
                    } else {
                        None
                    },
                    None => None,
                }
            } else {
                None
            },
            None => None,
        }
    }
}

/// The byte span of the first entry of a pairs region that carries `key`
/// with a dictionary value: key start, value start and value end, relative
/// to `s`. The walk mirrors the dictionary grammar, so the span names the
/// exact bytes the value occupies in the document.
pub open spec fn dict_value_span(s: Seq<u8>, key: Seq<u8>) -> Option<(int, int, int)>
    decreases s.len(),
{
    if s.len() == 0 {
        None
    } else if s[0] == 101 {
        None
    } else {
        match spec_parse_str(s) {
            Some((k, n1)) => if 1 <= n1 <= s.len() {
                match spec_parse_item(s.skip(n1)) {
                    Some((v, n2)) => if 1 <= n2 <= s.len() - n1 {
                        if k == key {
                            if v is Dict {
                                Some((0, n1, n1 + n2))
                            } else {
                                None
                            }
                        } else {
                            match dict_value_span(s.skip(n1 + n2), key) {
                                Some(t) => Some(
                                    (n1 + n2 + t.0, n1 + n2 + t.1, n1 + n2 + t.2),
                                ),
                                None => None,
                            }
                        }
                    } else {
                        None
                    },
                    None => None,
                }
            } else {
                None
            },
            None => None,
        }
    }
}

/// Every top-level value until the buffer ends or a byte opens no value.
pub open spec fn spec_parse_seq(s: Seq<u8>) -> Option<(Seq<ItemV>, int)>
    decreases s.len(), 3int,
{
    if s.len() == 0 {
        Some((Seq::empty(), 0))
    } else if s[0] == 105 || s[0] == 108 || s[0] == 100 || is_digit(s[0]) {
        match spec_parse_item(s) {
            Some((it, n)) => if 1 <= n <= s.len() {
                match spec_parse_seq(s.skip(n)) {
                    Some((rest, m)) => Some((seq![it] + rest, n + m)),
                    None => None,
                }
            } else {
                None
            },
            None => None,
        }
    } else {
        Some((Seq::empty(), 0))
    }
}

/// A digit run looks the same from the middle of a buffer as from its start.
pub proof fn lemma_digit_run_shift(s: Seq<u8>, p: int, q: int)
    requires
        0 <= p,
        0 <= q,
        p + q <= s.len(),
    ensures
        digit_run_len(s.skip(p), q) == digit_run_len(s, p + q),
    decreases s.len() - p - q,
{
    if p + q < s.len() && is_digit(s[p + q]) {
        lemma_digit_run_shift(s, p, q + 1);
    }
}

/// Appending digits never shrinks the denoted number.
pub proof fn lemma_digits_val_mono(d: Seq<u8>, i: int)
    requires
        0 <= i <= d.len(),
        forall|j: int| 0 <= j < d.len() ==> is_digit(#[trigger] d[j]),
    ensures
        digits_val(d.take(i)) <= digits_val(d),
    decreases d.len(),
{
    if i < d.len() {
        let head = d.take(d.len() - 1);
        assert forall|j: int| 0 <= j < head.len() implies is_digit(#[trigger] head[j]) by {
            assert(head[j] == d[j]);
        }
        lemma_digits_val_nonneg(head);
        lemma_digits_val_mono(head, i);
        assert(head.take(i) =~= d.take(i));
        assert(digits_val(d) == digits_val(head) * 10 + (d.last() - 48));
        assert(digits_val(head) * 10 >= digits_val(head)) by (nonlinear_arith)
            requires digits_val(head) >= 0;
    } else {
        assert(d.take(i) =~= d);
    }
}

/// Advance over the run of decimal digits that starts at `from`.
pub fn scan_digits(str: &Vec<u8>, from: usize) -> (end: usize)
    requires
        from <= str@.len(),
    ensures
        from <= end <= str@.len(),
        digit_run_len(str@, from as int) == end - from,
        forall|j: int| from <= j < end ==> is_digit(#[trigger] str@[j]),
{
    let n = str.len();
    let mut i: usize = from;
    while i < n && 48 <= str[i] && str[i] <= 57
        invariant
            from <= i <= n,
            n == str@.len(),
            forall|j: int| from <= j < i ==> is_digit(#[trigger] str@[j]),
        decreases n - i,
    {
        i = i + 1;
    }
    proof {
        lemma_digit_run_of_scan(str@, from as int, i as int);
    }
    i
}

/// The value of the digits in `str[from..end]`, or `None` when it cannot be
/// held in a machine word.
pub fn digits_value(str: &Vec<u8>, from: usize, end: usize) -> (r: Option<usize>)
    requires
        from <= end <= str@.len(),
        forall|j: int| from <= j < end ==> is_digit(#[trigger] str@[j]),
    ensures
        match r {
            Some(v) => v as int == digits_val(str@.subrange(from as int, end as int)),
            None => digits_val(str@.subrange(from as int, end as int)) > usize::MAX,
        },
{
    let ghost whole = str@.subrange(from as int, end as int);
    proof {
        assert forall|j: int| 0 <= j < whole.len() implies is_digit(#[trigger] whole[j]) by {
            assert(whole[j] == str@[from + j]);
        }
        assert(whole.take(0) =~= Seq::<u8>::empty());
    }
    let mut value: usize = 0;
    let mut j: usize = from;
    while j < end
        invariant
            from <= j <= end <= str@.len(),
            whole == str@.subrange(from as int, end as int),
            forall|j2: int| from <= j2 < end ==> is_digit(#[trigger] str@[j2]),
            value as int == digits_val(str@.subrange(from as int, j as int)),
        decreases end - j,
    {
        let d = str[j];
        let dd = (d - 48) as usize;
        let next = (value as u128) * 10 + (dd as u128);
        proof {
            let pre = str@.subrange(from as int, j as int);
            let post = str@.subrange(from as int, j + 1);
            assert(post.take(post.len() - 1) =~= pre);
            assert(post.last() == str@[j as int]);
            assert(digits_val(post) == digits_val(pre) * 10 + (str@[j as int] - 48));
            assert((value as u128) * 10 + (dd as u128) == value * 10 + dd) by (nonlinear_arith);
        }
        if next > usize::MAX as u128 {
            proof {
                let post = str@.subrange(from as int, j + 1);
                assert forall|j2: int| 0 <= j2 < whole.len() implies is_digit(
                    #[trigger] whole[j2],
                ) by {
                    assert(whole[j2] == str@[from + j2]);
                }
                lemma_digits_val_mono(whole, j + 1 - from);
                assert(whole.take(j + 1 - from) =~= post);
            }
            return None;
        }
        value = (next as usize);
        j = j + 1;
    }
    proof {
        assert(str@.subrange(from as int, j as int) =~= whole);
    }
    Some(value)
}

/// Read `i<digits>e` at `pos`, as the buffer's cursor-based integer parser.
pub fn parse_int(str: &Vec<u8>, pos: usize) -> (r: Option<(usize, usize)>)
    requires
        pos <= str@.len(),
    ensures
        match r {
            Some(v) => spec_parse_int(str@.skip(pos as int)) == Some(
                (v.0 as int, v.1 - pos as int),
            ) && pos < v.1 <= str@.len(),
            None => spec_parse_int(str@.skip(pos as int)) is None,
        },
{
    let ghost s = str@.skip(pos as int);
    if pos >= str.len() || str[pos] != 105 {
        return None;
    }
    let end = scan_digits(str, pos + 1);
    proof {
        lemma_digit_run_shift(str@, pos as int, 1);
        assert(digit_run_len(s, 1) == end - (pos + 1));
    }
    let k = end - (pos + 1);
    if k == 0 {
        return None;
    }
    if end >= str.len() || str[end] != 101 {
        return None;
    }
    proof {
        assert(s[1 + k as int] == str@[end as int]);
        assert(s.subrange(1, 1 + k as int) =~= str@.subrange(pos + 1, end as int));
    }
    match digits_value(str, pos + 1, end) {
        Some(v) => Some((v, end + 1)),
        None => None,
    }
}

/// Read `<digits>:<bytes>` at `pos`, as the buffer's cursor-based string
/// parser.
pub fn parse_string(str: &Vec<u8>, pos: usize) -> (r: Option<(Vec<u8>, usize)>)
    requires
        pos <= str@.len(),
    ensures
        match r {
            Some(v) => spec_parse_str(str@.skip(pos as int)) == Some(
                (v.0@, v.1 - pos as int),
            ) && pos < v.1 <= str@.len(),
            None => spec_parse_str(str@.skip(pos as int)) is None,
        },
{
    let ghost s = str@.skip(pos as int);
    let end = scan_digits(str, pos);
    proof {
        lemma_digit_run_shift(str@, pos as int, 0);
        assert(digit_run_len(s, 0) == end - pos);
    }
    let k = end - pos;
    if k == 0 {
        return None;
    }
    if end >= str.len() || str[end] != 58 {
        return None;
    }
    proof {
        assert(s[k as int] == str@[end as int]);
        assert(s.subrange(0, k as int) =~= str@.subrange(pos as int, end as int));
    }
    match digits_value(str, pos, end) {
        Some(l) => {
            let rem = str.len() - (end + 1);
            if l > rem {
                return None;
            }
            let bytes = copy_range(str, end + 1, end + 1 + l);
            proof {
                assert(s.subrange(k + 1, k + 1 + l as int) =~= str@.subrange(
                    end + 1,
                    end + 1 + l as int,
                ));
            }
            Some((bytes, end + 1 + l))
        }
        None => {
            proof {
                assert(s.len() <= usize::MAX);
            }
            None
        }
    }
}

/// The value of the first entry carrying `key`.
pub open spec fn dict_lookup(pairs: Seq<(Seq<u8>, ItemV)>, key: Seq<u8>) -> Option<ItemV>
    decreases pairs.len(),
{
    if pairs.len() == 0 {
        None
    } else if pairs[0].0 == key {
        Some(pairs[0].1)
    } else {
        dict_lookup(pairs.skip(1), key)
    }
}

/// Find the first entry of a dictionary carrying `key`.
pub fn dict_find<'a>(pairs: &'a Vec<(Vec<u8>, Item)>, key: &[u8]) -> (r: Option<&'a Item>)
    ensures
        match r {
            Some(it) => dict_lookup(pairs_view(pairs@), key@) == Some(item_view(*it)),
            None => dict_lookup(pairs_view(pairs@), key@) is None,
        },
{
    let ghost pv = pairs_view(pairs@);
    let n = pairs.len();
    let mut k: usize = 0;
    proof {
        assert(pv.skip(0) =~= pv);
    }
    while k < n
        invariant
            k <= n,
            n == pairs@.len(),
            pv == pairs_view(pairs@),
            dict_lookup(pv, key@) == dict_lookup(pv.skip(k as int), key@),
        decreases n - k,
    {
        proof {
            assert(pv.skip(k as int)[0] == (pairs@[k as int].0@, item_view(
                pairs@[k as int].1,
            )));
        }
        if crate::msg::bytes_eq(pairs[k].0.as_slice(), key) {
            return Some(&pairs[k].1);
        }
        proof {
            assert(pv.skip(k as int).skip(1) =~= pv.skip(k + 1));
        }
        k = k + 1;
    }
    proof {
        assert(pv.skip(n as int).len() == 0);
    }
    None
}

/// Read one bencode value at `pos`.
pub fn parse_item(str: &Vec<u8>, pos: usize) -> (r: Option<(Item, usize)>)
    requires
        pos <= str@.len(),
    ensures
        match r {
            Some(v) => spec_parse_item(str@.skip(pos as int)) == Some(
                (item_view(v.0), v.1 - pos as int),
            ) && pos < v.1 <= str@.len(),
            None => spec_parse_item(str@.skip(pos as int)) is None,
        },
    decreases str@.len() - pos, 1int,
{
    let ghost s = str@.skip(pos as int);
    if pos >= str.len() {
        return None;
    }
    let c = str[pos];
    proof {
        assert(s[0] == c);
    }
    if c == 105 {
        match parse_int(str, pos) {
            Some(v) => Some((Item::Integer(v.0), v.1)),
            None => None,
        }
    } else if c == 108 {
        match parse_list(str, pos) {
            Some(v) => {
                proof {
                    assert(s.skip(1) =~= str@.skip(pos + 1));
                }
                Some((Item::List(v.0), v.1))
            }
            None => {
                proof {
                    assert(s.skip(1) =~= str@.skip(pos + 1));
                }
                None
            }
        }
    } else if c == 100 {
        match parse_dict(str, pos) {
            Some(v) => {
                proof {
                    assert(s.skip(1) =~= str@.skip(pos + 1));
                }
                Some((Item::Dict(v.0), v.1))
            }
            None => {
                proof {
                    assert(s.skip(1) =~= str@.skip(pos + 1));
                }
                None
            }
        }
    } else if 48 <= c && c <= 57 {
        match parse_string(str, pos) {
            Some(v) => Some((Item::String(v.0), v.1)),
            None => None,
        }
    } else {
        None
    }
}

/// Read the elements of a list whose `l` stands at `pos`.
pub fn parse_list(str: &Vec<u8>, pos: usize) -> (r: Option<(Vec<Item>, usize)>)
    requires
        pos < str@.len(),
        str@[pos as int] == 108,
    ensures
        match r {
            Some(v) => spec_parse_items(str@.skip(pos + 1)) == Some(
                (items_view(v.0@), v.1 - pos - 1),
            ) && pos < v.1 <= str@.len(),
            None => spec_parse_items(str@.skip(pos + 1)) is None,
        },
    decreases str@.len() - pos, 0int,
{
    let n = str.len();
    proof {
        assert(pos < n);
    }
    let mut items: Vec<Item> = Vec::new();
    let mut cur: usize = pos + 1;
    proof {
        assert(items_view(items@) + spec_parse_items(str@.skip(pos + 1))->Some_0.0
            =~= spec_parse_items(str@.skip(pos + 1))->Some_0.0);
    }
    loop
        invariant
            pos + 1 <= cur <= str@.len(),
            ({
                let whole = spec_parse_items(str@.skip(pos + 1));
                let tail = spec_parse_items(str@.skip(cur as int));
                match tail {
                    Some((rest, m)) => whole == Some(
                        (items_view(items@) + rest, cur - (pos + 1) + m),
                    ),
                    None => whole is None,
                }
            }),
        decreases str@.len() - cur,
    {
        let ghost scur = str@.skip(cur as int);
        if cur >= str.len() {
            return None;
        }
        let c = str[cur];
        proof {
            assert(scur[0] == c);
        }
        if c == 101 {
            proof {
                assert(items_view(items@) + Seq::<ItemV>::empty() =~= items_view(items@));
            }
            return Some((items, cur + 1));
        }
        match parse_item(str, cur) {
            Some(v) => {
                let (it, np) = v;
                proof {
                    assert(scur.skip(np - cur as int) =~= str@.skip(np as int));
                    assert(items_view(items@.push(it)) =~= items_view(items@).push(
                        item_view(it),
                    ));
                    if spec_parse_items(str@.skip(np as int)) is Some {
                        let rest2 = spec_parse_items(str@.skip(np as int))->Some_0.0;
                        assert(items_view(items@).push(item_view(it)) + rest2
                            =~= items_view(items@) + (seq![item_view(it)] + rest2));
                    }
                }
                items.push(it);
                cur = np;
            }
            None => {
                return None;
            }
        }
    }
}

/// Read the entries of a dictionary whose `d` stands at `pos`.
pub fn parse_dict(str: &Vec<u8>, pos: usize) -> (r: Option<(Vec<(Vec<u8>, Item)>, usize)>)
    requires
        pos < str@.len(),
        str@[pos as int] == 100,
    ensures
        match r {
            Some(v) => spec_parse_pairs(str@.skip(pos + 1)) == Some(
                (pairs_view(v.0@), v.1 - pos - 1),
            ) && pos < v.1 <= str@.len(),
            None => spec_parse_pairs(str@.skip(pos + 1)) is None,
        },
    decreases str@.len() - pos, 0int,
{
    let n = str.len();
    proof {
        assert(pos < n);
    }
    let mut pairs: Vec<(Vec<u8>, Item)> = Vec::new();
    let mut cur: usize = pos + 1;
    proof {
        assert(pairs_view(pairs@) + spec_parse_pairs(str@.skip(pos + 1))->Some_0.0
            =~= spec_parse_pairs(str@.skip(pos + 1))->Some_0.0);
    }
    loop
        invariant
            pos + 1 <= cur <= str@.len(),
            ({
                let whole = spec_parse_pairs(str@.skip(pos + 1));
                let tail = spec_parse_pairs(str@.skip(cur as int));
                match tail {
                    Some((rest, m)) => whole == Some(
                        (pairs_view(pairs@) + rest, cur - (pos + 1) + m),
                    ),
                    None => whole is None,
                }
            }),
        decreases str@.len() - cur,
    {
        let ghost scur = str@.skip(cur as int);
        if cur >= str.len() {
            return None;
        }
        let c = str[cur];
        proof {
            assert(scur[0] == c);
        }
        if c == 101 {
            proof {
                assert(pairs_view(pairs@) + Seq::<(Seq<u8>, ItemV)>::empty()
                    =~= pairs_view(pairs@));
            }
            return Some((pairs, cur + 1));
        }
        match parse_string(str, cur) {
            Some(kv) => {
                let (key, np1) = kv;
                proof {
                    assert(scur.skip(np1 - cur as int) =~= str@.skip(np1 as int));
                }
                match parse_item(str, np1) {
                    Some(v) => {
                        let (it, np2) = v;
                        proof {
                            assert(scur.skip(np2 - cur as int) =~= str@.skip(np2 as int));
                            assert(pairs_view(pairs@.push((key, it)))
                                =~= pairs_view(pairs@).push((key@, item_view(it))));
                            if spec_parse_pairs(str@.skip(np2 as int)) is Some {
                                let rest2 = spec_parse_pairs(str@.skip(np2 as int))->Some_0.0;
                                assert(pairs_view(pairs@).push((key@, item_view(it))) + rest2
                                    =~= pairs_view(pairs@) + (seq![(key@, item_view(it))]
                                        + rest2));
                            }
                        }
                        pairs.push((key, it));
                        cur = np2;
                    }
                    None => {
                        return None;
                    }
                }
            }
            None => {
                return None;
            }
        }
    }
}

/// Decode every top-level value of the document, consuming the bytes they
/// span; a malformed document leaves the buffer untouched.
pub fn parse(str: &mut Vec<u8>) -> (r: Option<Vec<Item>>)
    ensures
        match r {
            Some(items) => (spec_parse_seq(old(str)@) matches Some((l, n))
                && items_view(items@) == l && final(str)@ == old(str)@.skip(n)),
            None => spec_parse_seq(old(str)@) is None && final(str)@ == old(str)@,
        },
{
    let ghost input = str@;
    let mut items: Vec<Item> = Vec::new();
    let mut cur: usize = 0;
    proof {
        assert(input.skip(0) =~= input);
        assert(items_view(items@) + spec_parse_seq(input)->Some_0.0
            =~= spec_parse_seq(input)->Some_0.0);
    }
    loop
        invariant
            cur <= str@.len(),
            str@ == input,
            ({
                let whole = spec_parse_seq(input);
                let tail = spec_parse_seq(input.skip(cur as int));
                match tail {
                    Some((rest, m)) => whole == Some((items_view(items@) + rest, cur + m)),
                    None => whole is None,
                }
            }),
        ensures
            str@ == input,
            cur <= str@.len(),
            (spec_parse_seq(input) matches Some((l, n)) && items_view(items@) == l
                && n == cur),
        decreases str@.len() - cur,
    {
        let ghost scur = input.skip(cur as int);
        if cur >= str.len() {
            proof {
                assert(items_view(items@) + Seq::<ItemV>::empty() =~= items_view(items@));
            }
            break;
        }
        let c = str[cur];
        proof {
            assert(scur[0] == c);
        }
        if c == 105 || c == 108 || c == 100 || (48 <= c && c <= 57) {
            match parse_item(str, cur) {
                Some(v) => {
                    let (it, np) = v;
                    proof {
                        assert(scur.skip(np - cur as int) =~= input.skip(np as int));
                        assert(items_view(items@.push(it)) =~= items_view(items@).push(
                            item_view(it),
                        ));
                        if spec_parse_seq(input.skip(np as int)) is Some {
                            let rest2 = spec_parse_seq(input.skip(np as int))->Some_0.0;
                            assert(items_view(items@).push(item_view(it)) + rest2
                                =~= items_view(items@) + (seq![item_view(it)] + rest2));
                        }
                    }
                    items.push(it);
                    cur = np;
                }
                None => {
                    return None;
                }
            }
        } else {
            proof {
                assert(items_view(items@) + Seq::<ItemV>::empty() =~= items_view(items@));
            }
            break;
        }
    }
    crate::msg::drop_front(str, cur);
    Some(items)
}

} // verus!
