//! The tabular export of a group map: column order fixed by sorting the keys
//! lexicographically, rows padded with empty cells to the longest group, and
//! every record encoded with standard delimiter/quote escaping.

use vstd::prelude::*;

verus! {

/// Lexicographic order on character sequences, by code point: the empty
/// sequence first, then by the first differing character, a proper prefix
/// before its extensions.
pub open spec fn lex_leq(a: Seq<char>, b: Seq<char>) -> bool
    decreases a.len(),
{
    if a.len() == 0 {
        true
    } else if b.len() == 0 {
        false
    } else if a.first() == b.first() {
        lex_leq(a.drop_first(), b.drop_first())
    } else {
        a.first() < b.first()
    }
}

/// Any two character sequences are ordered one way or the other.
pub proof fn lemma_lex_total(a: Seq<char>, b: Seq<char>)
    ensures
        lex_leq(a, b) || lex_leq(b, a),
    decreases a.len(),
{
    if a.len() > 0 && b.len() > 0 {
        if a.first() == b.first() {
            lemma_lex_total(a.drop_first(), b.drop_first());
        }
    }
}

/// Lexicographic order is transitive.
pub proof fn lemma_lex_trans(a: Seq<char>, b: Seq<char>, c: Seq<char>)
    requires
        lex_leq(a, b),
        lex_leq(b, c),
    ensures
        lex_leq(a, c),
    decreases a.len(),
{
    if a.len() > 0 && b.len() > 0 && c.len() > 0 {
        if a.first() == b.first() && b.first() == c.first() {
            lemma_lex_trans(a.drop_first(), b.drop_first(), c.drop_first());
        }
    }
}

/// True when `a` comes no later than `b` in lexicographic order.
pub fn str_leq(a: &str, b: &str) -> (r: bool)
    ensures
        r == lex_leq(a@, b@),
{
    let alen = a.unicode_len();
    let blen = b.unicode_len();
    let mut i: usize = 0;
    proof {
        assert(a@.skip(0) =~= a@);
        assert(b@.skip(0) =~= b@);
    }
    loop
        invariant
            alen == a@.len(),
            blen == b@.len(),
            i <= alen,
            i <= blen,
            forall|m: int| 0 <= m < i ==> a@[m] == b@[m],
            lex_leq(a@, b@) == lex_leq(a@.skip(i as int), b@.skip(i as int)),
        ensures
            lex_leq(a@, b@) == lex_leq(a@.skip(i as int), b@.skip(i as int)),
            i <= alen && i <= blen,
            i < alen && i < blen ==> a@[i as int] != b@[i as int],
            i == alen || i == blen,
        decreases alen - i,
    {
        if i >= alen || i >= blen {
            break ;
        }
        let ca = a.get_char(i);
        let cb = b.get_char(i);
        if ca != cb {
            proof {
                assert(a@.skip(i as int).first() == a@[i as int]);
                assert(b@.skip(i as int).first() == b@[i as int]);
            }
            return ca < cb;
        }
        proof {
            assert(a@.skip(i as int).first() == a@[i as int]);
            assert(b@.skip(i as int).first() == b@[i as int]);
            assert(a@.skip(i as int).drop_first() =~= a@.skip(i + 1 as int));
            assert(b@.skip(i as int).drop_first() =~= b@.skip(i + 1 as int));
        }
        i = i + 1;
    }
    proof {
        if i == alen {
            assert(a@.skip(i as int).len() == 0);
        } else {
            assert(b@.skip(i as int).len() == 0);
            assert(a@.skip(i as int).len() > 0);
        }
    }
    alen <= blen
}

proof fn lemma_insert_multiset<A>(s: Seq<A>, p: int, x: A)
    requires
        0 <= p <= s.len(),
    ensures
        s.insert(p, x).to_multiset() == s.to_multiset().insert(x),
{
    broadcast use vstd::seq_lib::lemma_multiset_commutative, vstd::seq_lib::to_multiset_build;

    let pre = s.subrange(0, p);
    let post = s.subrange(p, s.len() as int);
    assert(s.insert(p, x) == pre.push(x) + post);
    assert(pre + post =~= s);
    assert((pre.push(x) + post).to_multiset() == pre.push(x).to_multiset().add(post.to_multiset()));
    assert((pre + post).to_multiset() == pre.to_multiset().add(post.to_multiset()));
    assert(pre.push(x).to_multiset() == pre.to_multiset().insert(x));
    assert(pre.to_multiset().insert(x).add(post.to_multiset()) =~= pre.to_multiset().add(
        post.to_multiset(),
    ).insert(x));
}

/// Sorts the group keys into lexicographic order: the result is a
/// permutation of the input with the same length, pairwise ordered.
pub fn sort_keys(keys: &Vec<String>) -> (sorted_keys: Vec<String>)
    ensures
        sorted_keys@.len() == keys@.len(),
        sorted_keys@.to_multiset() == keys@.to_multiset(),
        forall|p: int, q: int|
            0 <= p < q < sorted_keys@.len() ==> lex_leq(
                #[trigger] sorted_keys@[p]@,
                #[trigger] sorted_keys@[q]@,
            ),
{
    broadcast use vstd::seq_lib::to_multiset_build;

    let mut out: Vec<String> = Vec::new();
    let mut i: usize = 0;
    proof {
        assert(out@ =~= keys@.take(0));
    }
    while i < keys.len()
        invariant
            i <= keys@.len(),
            out@.len() == i,
            out@.to_multiset() == keys@.take(i as int).to_multiset(),
            forall|p: int, q: int|
                0 <= p < q < out@.len() ==> lex_leq(#[trigger] out@[p]@, #[trigger] out@[q]@),
        decreases keys@.len() - i,
    {
        let key = keys[i].clone();
        let mut p: usize = 0;
        while p < out.len()
            invariant
                p <= out@.len(),
                forall|m: int| 0 <= m < p ==> lex_leq(#[trigger] out@[m]@, key@),
            ensures
                p <= out@.len(),
                forall|m: int| 0 <= m < p ==> lex_leq(#[trigger] out@[m]@, key@),
                p < out@.len() ==> !lex_leq(out@[p as int]@, key@),
            decreases out@.len() - p,
        {
            if !str_leq(out[p].as_str(), key.as_str()) {
                break ;
            }
            p = p + 1;
        }
        let ghost old_out = out@;
        proof {
            lemma_insert_multiset(old_out, p as int, key);
            old_out.insert_ensures(p as int, key);
            if p < old_out.len() {
                lemma_lex_total(old_out[p as int]@, key@);
            }
            assert(keys@.take(i + 1 as int) =~= keys@.take(i as int).push(keys@[i as int]));
            vstd::seq_lib::to_multiset_build(keys@.take(i as int), keys@[i as int]);
        }
        out.insert(p, key);
        proof {
            assert forall|a: int, b: int| 0 <= a < b < out@.len() implies lex_leq(
                #[trigger] out@[a]@,
                #[trigger] out@[b]@,
            ) by {
                if a < p && b == p {
                    assert(out@[b] == key);
                } else if a == p && b > p {
                    assert(out@[a] == key);
                    assert(out@[b] == old_out[b - 1]);
                    assert(lex_leq(key@, old_out[p as int]@));
                    if b - 1 > p {
                        lemma_lex_trans(key@, old_out[p as int]@, old_out[b - 1]@);
                    }
                } else if a < p && b > p {
                    assert(out@[a] == old_out[a]);
                    assert(out@[b] == old_out[b - 1]);
                } else if a > p {
                    assert(out@[a] == old_out[a - 1]);
                    assert(out@[b] == old_out[b - 1]);
                } else {
                    assert(out@[a] == old_out[a]);
                    assert(out@[b] == old_out[b]);
                }
            }
        }
        i = i + 1;
    }
    proof {
        assert(keys@.take(keys@.len() as int) =~= keys@);
    }
    out
}

/// The lines of the group keyed `key`: the values of the first pair carrying
/// that key, or the empty sequence when no pair does.
pub open spec fn group_values(groups: Seq<(String, Vec<String>)>, key: Seq<char>) -> Seq<Seq<char>>
    decreases groups.len(),
{
    if groups.len() == 0 {
        Seq::empty()
    } else if groups.first().0@ == key {
        groups.first().1.deep_view()
    } else {
        group_values(groups.drop_first(), key)
    }
}

/// The number of lines in the longest group, 0 when there are no groups.
pub open spec fn max_group_len(groups: Seq<(String, Vec<String>)>) -> nat
    decreases groups.len(),
{
    if groups.len() == 0 {
        0
    } else {
        let rest = max_group_len(groups.drop_last());
        if groups.last().1@.len() > rest {
            groups.last().1@.len()
        } else {
            rest
        }
    }
}

/// The cell of the tabular export at row `r` in the column keyed `key`: the
/// group's line at position `r`, or the empty string once the group is
/// exhausted.
pub open spec fn cell_spec(groups: Seq<(String, Vec<String>)>, key: Seq<char>, r: int) -> Seq<
    char,
> {
    let vs = group_values(groups, key);
    if 0 <= r < vs.len() {
        vs[r]
    } else {
        Seq::empty()
    }
}

/// A cell of the tabular export is empty exactly when its group has run out
/// of lines at that row, provided no grouped line is itself the empty string.
pub proof fn lemma_cell_empty_iff_group_short(
    groups: Seq<(String, Vec<String>)>,
    key: Seq<char>,
    r: int,
)
    requires
        r >= 0,
        forall|m: int|
            0 <= m < group_values(groups, key).len() ==> #[trigger] group_values(
                groups,
                key,
            )[m].len() > 0,
    ensures
        cell_spec(groups, key, r).len() == 0 <==> r >= group_values(groups, key).len(),
{
}

proof fn lemma_group_values_skip(groups: Seq<(String, Vec<String>)>, key: Seq<char>, p: int)
    requires
        0 <= p <= groups.len(),
        forall|m: int| 0 <= m < p ==> #[trigger] groups[m].0@ != key,
    ensures
        group_values(groups, key) == group_values(groups.skip(p), key),
    decreases p,
{
    if p > 0 {
        assert(groups.first().0@ != key);
        lemma_group_values_skip(groups.drop_first(), key, p - 1);
        assert(groups.drop_first().skip(p - 1) =~= groups.skip(p));
    } else {
        assert(groups.skip(0) =~= groups);
    }
}

fn find_values<'a>(groups: &'a Vec<(String, Vec<String>)>, key: &String) -> (r: Option<
    &'a Vec<String>,
>)
    ensures
        match r {
            Some(vs) => vs.deep_view() == group_values(groups@, key@),
            None => group_values(groups@, key@) == Seq::<Seq<char>>::empty(),
        },
{
    let mut p: usize = 0;
    while p < groups.len()
        invariant
            p <= groups@.len(),
            forall|m: int| 0 <= m < p ==> #[trigger] groups@[m].0@ != key@,
        decreases groups@.len() - p,
    {
        if groups[p].0.eq(key) {
            proof {
                lemma_group_values_skip(groups@, key@, p as int);
                assert(groups@.skip(p as int).first() == groups@[p as int]);
            }
            return Some(&groups[p].1);
        }
        p = p + 1;
    }
    proof {
        lemma_group_values_skip(groups@, key@, groups@.len() as int);
    }
    None
}

/// The longest group's length, as the number of data rows to emit.
fn longest_group(groups: &Vec<(String, Vec<String>)>) -> (m: usize)
    ensures
        m == max_group_len(groups@),
{
    let mut m: usize = 0;
    let mut i: usize = 0;
    while i < groups.len()
        invariant
            i <= groups@.len(),
            m == max_group_len(groups@.take(i as int)),
        decreases groups@.len() - i,
    {
        proof {
            assert(groups@.take(i + 1 as int).drop_last() =~= groups@.take(i as int));
            assert(groups@.take(i + 1 as int).last() == groups@[i as int]);
        }
        if groups[i].1.len() > m {
            m = groups[i].1.len();
        }
        i = i + 1;
    }
    proof {
        assert(groups@.take(groups@.len() as int) =~= groups@);
    }
    m
}

/// What the csv writer emits for one record: each field escaped as needed
/// and the record terminated, as a function of the fields alone.
pub uninterp spec fn csv_record_bytes(fields: Seq<Seq<char>>) -> Seq<u8>;

/// Relies on `csv::Writer` over an in-memory buffer: `write_record` encodes
/// exactly one record, quoting fields that embed separators, quotes or line
/// breaks, and terminates it with a newline; the bytes depend on the fields
/// alone.
#[verifier::external_body]
fn encode_record(fields: &Vec<String>) -> (r: Vec<u8>)
    ensures
        r@ == csv_record_bytes(fields.deep_view()),
{
    let mut w = csv::Writer::from_writer(Vec::new());
    let _ = w.write_record(fields.iter());
    match w.into_inner() {
        Ok(bytes) => bytes,
        Err(_) => Vec::new(),
    }
}

/// The bytes of the whole tabular file: the header record followed by one
/// record per data row, in order.
pub open spec fn csv_file_bytes(header: Seq<Seq<char>>, rows: Seq<Seq<Seq<char>>>) -> Seq<u8>
    decreases rows.len(),
{
    if rows.len() == 0 {
        csv_record_bytes(header)
    } else {
        csv_file_bytes(header, rows.drop_last()) + csv_record_bytes(rows.last())
    }
}

/// Encodes a header row and its data rows into the bytes of the tabular
/// file, each record escaped by the csv writer.
pub fn encode_table(header: &Vec<String>, rows: &Vec<Vec<String>>) -> (out: Vec<u8>)
    ensures
        out@ == csv_file_bytes(header.deep_view(), rows.deep_view()),
{
    let mut out = encode_record(header);
    let mut r: usize = 0;
    proof {
        assert(rows.deep_view().take(0) =~= Seq::<Seq<Seq<char>>>::empty());
    }
    while r < rows.len()
        invariant
            r <= rows@.len(),
            out@ == csv_file_bytes(header.deep_view(), rows.deep_view().take(r as int)),
        decreases rows@.len() - r,
    {
        proof {
            assert(rows.deep_view().take(r + 1 as int).drop_last() =~= rows.deep_view().take(
                r as int,
            ));
            assert(rows.deep_view().take(r + 1 as int).last() == rows.deep_view()[r as int]);
            assert(rows.deep_view()[r as int] == rows@[r as int].deep_view());
        }
        let mut rec = encode_record(&rows[r]);
        out.append(&mut rec);
        r = r + 1;
    }
    proof {
        assert(rows.deep_view().take(rows@.len() as int) =~= rows.deep_view());
    }
    out
}

/// Builds the tabular export of a group map: the header row is the group
/// keys in lexicographic order, and below it stand exactly as many data rows
/// as the longest group has lines, each row one cell per column, a cell
/// being the group's line at that row or the empty string once the group is
/// exhausted.
pub fn table_rows(groups: &Vec<(String, Vec<String>)>) -> (table: (Vec<String>, Vec<Vec<String>>))
    ensures
        table.0@.len() == groups@.len(),
        table.0@.to_multiset() == groups@.map_values(|g: (String, Vec<String>)| g.0).to_multiset(),
        forall|p: int, q: int|
            0 <= p < q < table.0@.len() ==> lex_leq(#[trigger] table.0@[p]@, #[trigger] table.0@[q]@),
        table.1@.len() == max_group_len(groups@),
        forall|r: int| 0 <= r < table.1@.len() ==> #[trigger] table.1@[r]@.len() == table.0@.len(),
        forall|r: int, h: int|
            0 <= r < table.1@.len() && 0 <= h < table.0@.len() ==> #[trigger] table.1@[r]@[h]@
                == cell_spec(groups@, table.0@[h]@, r),
{
    let mut keys: Vec<String> = Vec::new();
    let mut i: usize = 0;
    while i < groups.len()
        invariant
            i <= groups@.len(),
            keys@.len() == i,
            forall|m: int| 0 <= m < i ==> #[trigger] keys@[m] == groups@[m].0,
        decreases groups@.len() - i,
    {
        keys.push(groups[i].0.clone());
        i = i + 1;
    }
    proof {
        assert(keys@ =~= groups@.map_values(|g: (String, Vec<String>)| g.0));
    }
    let header = sort_keys(&keys);
    let max_rows = longest_group(groups);
    let mut rows: Vec<Vec<String>> = Vec::new();
    let mut r: usize = 0;
    while r < max_rows
        invariant
            r <= max_rows,
            rows@.len() == r,
            forall|m: int| 0 <= m < r ==> #[trigger] rows@[m]@.len() == header@.len(),
            forall|m: int, h: int|
                0 <= m < r && 0 <= h < header@.len() ==> #[trigger] rows@[m]@[h]@ == cell_spec(
                    groups@,
                    header@[h]@,
                    m,
                ),
        decreases max_rows - r,
    {
        let mut row: Vec<String> = Vec::new();
        let mut h: usize = 0;
        while h < header.len()
            invariant
                h <= header@.len(),
                row@.len() == h,
                forall|m: int|
                    0 <= m < h ==> #[trigger] row@[m]@ == cell_spec(groups@, header@[m]@, r as int),
            decreases header@.len() - h,
        {
            match find_values(groups, &header[h]) {
                Some(vs) => {
                    if r < vs.len() {
                        proof {
                            assert(vs.deep_view()[r as int] == vs@[r as int]@);
                        }
                        row.push(vs[r].clone());
                    } else {
                        row.push(String::new());
                    }
                },
                None => {
                    row.push(String::new());
                },
            }
            h = h + 1;
        }
        rows.push(row);
        r = r + 1;
    }
    (header, rows)
}

} // verus!
