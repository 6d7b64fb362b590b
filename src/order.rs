use vstd::prelude::*;
use vstd::multiset::Multiset;
use crate::aggregated::{GroupModel, QueryResultEntry};
use crate::storage::{Value, ValueModel};

verus! {

broadcast use vstd::seq_lib::to_multiset_insert;

/// Lexicographic comparison of two strings by code point: negative, zero or
/// positive as `a` comes before, equals or comes after `b`.
pub open spec fn text_cmp(a: Seq<char>, b: Seq<char>) -> int
    decreases a.len(),
{
    if a.len() == 0 {
        if b.len() == 0 { 0 } else { -1 }
    } else if b.len() == 0 {
        1
    } else if (a[0] as int) < (b[0] as int) {
        -1
    } else if (a[0] as int) > (b[0] as int) {
        1
    } else {
        text_cmp(a.drop_first(), b.drop_first())
    }
}

/// The rank of a value's kind: null before integers before strings.
pub open spec fn kind_rank(v: ValueModel) -> int {
    match v {
        ValueModel::Null => 0,
        ValueModel::Int(_) => 1,
        ValueModel::Str(_) => 2,
    }
}

/// The order of two field values: by kind, then integers by value and strings
/// lexicographically.
pub open spec fn value_cmp(a: ValueModel, b: ValueModel) -> int {
    if kind_rank(a) < kind_rank(b) {
        -1
    } else if kind_rank(a) > kind_rank(b) {
        1
    } else {
        match (a, b) {
            (ValueModel::Int(x), ValueModel::Int(y)) => if x < y { -1 } else if x > y { 1 } else { 0 },
            (ValueModel::Str(x), ValueModel::Str(y)) => text_cmp(x, y),
            _ => 0,
        }
    }
}

/// What a result row is ordered by: its count, or the group-by field at an
/// index.
#[derive(Debug, Clone, Copy, PartialEq, Eq)]
pub enum SortKey {
    Count,
    Field(usize),
}

/// One level of the order: a key and its direction.
#[derive(Debug, Clone, Copy, PartialEq, Eq)]
pub struct SortSpec {
    pub key: SortKey,
    pub ascending: bool,
}

/// The order of two rows by one level.
pub open spec fn level_cmp(a: GroupModel, b: GroupModel, s: SortSpec) -> int {
    let c = match s.key {
        SortKey::Count => if a.1 < b.1 { -1 } else if a.1 > b.1 { 1 } else { 0 },
        SortKey::Field(i) => value_cmp(a.0[i as int], b.0[i as int]),
    };
    if s.ascending { c } else { -c }
}

/// The order of two rows: by the first level, ties broken by the next.
pub open spec fn row_cmp(a: GroupModel, b: GroupModel, levels: Seq<SortSpec>) -> int
    decreases levels.len(),
{
    if levels.len() == 0 {
        0
    } else {
        let c = level_cmp(a, b, levels[0]);
        if c != 0 { c } else { row_cmp(a, b, levels.drop_first()) }
    }
}

/// Whether `rows` is in the order `levels`.
pub open spec fn rows_ordered(rows: Seq<GroupModel>, levels: Seq<SortSpec>) -> bool {
    forall|i: int, j: int| 0 <= i < j < rows.len() ==> row_cmp(rows[i], rows[j], levels) <= 0
}

proof fn lemma_text_cmp_basic(a: Seq<char>, b: Seq<char>)
    ensures
        text_cmp(a, b) == -text_cmp(b, a),
        (text_cmp(a, b) == 0) == (a == b),
    decreases a.len(),
{
    if a.len() > 0 && b.len() > 0 {
        lemma_text_cmp_basic(a.drop_first(), b.drop_first());
        assert(a =~= seq![a[0]] + a.drop_first());
        assert(b =~= seq![b[0]] + b.drop_first());
        if a == b {
            assert(a.drop_first() =~= b.drop_first());
        }
        if (a[0] as int) == (b[0] as int) {
            assert(a[0] == b[0]);
        }
    } else if a.len() == 0 && b.len() == 0 {
        assert(a =~= b);
    }
}

proof fn lemma_text_cmp(a: Seq<char>, b: Seq<char>, c: Seq<char>)
    ensures
        text_cmp(a, b) == -text_cmp(b, a),
        text_cmp(a, b) == 0 <==> a == b,
        text_cmp(a, b) < 0 && text_cmp(b, c) < 0 ==> text_cmp(a, c) < 0,
    decreases a.len(),
{
    lemma_text_cmp_basic(a, b);
    if a.len() > 0 && b.len() > 0 && c.len() > 0 {
        lemma_text_cmp(a.drop_first(), b.drop_first(), c.drop_first());
    }
}

proof fn lemma_value_cmp(a: ValueModel, b: ValueModel, c: ValueModel)
    ensures
        value_cmp(a, b) == -value_cmp(b, a),
        value_cmp(a, b) == 0 <==> a == b,
        value_cmp(a, b) < 0 && value_cmp(b, c) < 0 ==> value_cmp(a, c) < 0,
{
    match (a, b, c) {
        (ValueModel::Str(x), ValueModel::Str(y), ValueModel::Str(z)) => lemma_text_cmp(x, y, z),
        (ValueModel::Str(x), ValueModel::Str(y), _) => lemma_text_cmp(x, y, x),
        _ => {},
    }
}

proof fn lemma_level_cmp(a: GroupModel, b: GroupModel, c: GroupModel, s: SortSpec)
    ensures
        level_cmp(a, b, s) == -level_cmp(b, a, s),
        level_cmp(a, b, s) < 0 && level_cmp(b, c, s) < 0 ==> level_cmp(a, c, s) < 0,
        level_cmp(a, b, s) == 0 ==> level_cmp(a, c, s) == level_cmp(b, c, s),
{
    if let SortKey::Field(i) = s.key {
        let (x, y, z) = (a.0[i as int], b.0[i as int], c.0[i as int]);
        lemma_value_cmp(x, y, z);
        lemma_value_cmp(y, z, x);
        lemma_value_cmp(z, x, y);
        lemma_value_cmp(x, z, y);
        lemma_value_cmp(z, y, x);
        lemma_value_cmp(y, x, z);
    }
}

proof fn lemma_row_cmp(a: GroupModel, b: GroupModel, c: GroupModel, levels: Seq<SortSpec>)
    ensures
        row_cmp(a, b, levels) == -row_cmp(b, a, levels),
        row_cmp(a, b, levels) <= 0 && row_cmp(b, c, levels) <= 0 ==> row_cmp(a, c, levels) <= 0,
        row_cmp(a, b, levels) < 0 && row_cmp(b, c, levels) <= 0 ==> row_cmp(a, c, levels) < 0,
    decreases levels.len(),
{
    if levels.len() > 0 {
        let s = levels[0];
        lemma_level_cmp(a, b, c, s);
        lemma_level_cmp(b, c, a, s);
        lemma_level_cmp(c, a, b, s);
        lemma_level_cmp(b, a, c, s);
        lemma_level_cmp(a, c, b, s);
        lemma_row_cmp(a, b, c, levels.drop_first());
    }
}

fn compare_text(a: &String, b: &String) -> (r: i8)
    ensures
        r as int == text_cmp(a@, b@),
        -1 <= r <= 1,
{
    let la = a.as_str().unicode_len();
    let lb = b.as_str().unicode_len();
    let mut i: usize = 0;
    assert(a@.skip(0) =~= a@);
    assert(b@.skip(0) =~= b@);
    while i < la && i < lb
        invariant
            la == a@.len(),
            lb == b@.len(),
            i <= la,
            i <= lb,
            text_cmp(a@, b@) == text_cmp(a@.skip(i as int), b@.skip(i as int)),
        decreases la - i,
    {
        let x = a.as_str().get_char(i);
        let y = b.as_str().get_char(i);
        assert(a@.skip(i as int)[0] == x);
        assert(b@.skip(i as int)[0] == y);
        if (x as u32) < (y as u32) {
            return -1;
        }
        if (x as u32) > (y as u32) {
            return 1;
        }
        assert(a@.skip(i as int).drop_first() =~= a@.skip(i + 1));
        assert(b@.skip(i as int).drop_first() =~= b@.skip(i + 1));
        i = i + 1;
    }
    if i < la {
        1
    } else if i < lb {
        -1
    } else {
        0
    }
}

fn compare_values(a: &Value, b: &Value) -> (r: i8)
    ensures
        r as int == value_cmp(a@, b@),
        -1 <= r <= 1,
{
    match (a, b) {
        (Value::Int(x), Value::Int(y)) => if *x < *y {
            -1
        } else if *x > *y {
            1
        } else {
            0
        },
        (Value::Str(x), Value::Str(y)) => compare_text(x, y),
        (Value::Null, Value::Null) => 0,
        (Value::Null, _) => -1,
        (_, Value::Null) => 1,
        (Value::Int(_), Value::Str(_)) => -1,
        (Value::Str(_), Value::Int(_)) => 1,
    }
}

/// Whether every field level of `levels` names a field index below `width`.
pub open spec fn levels_fit(levels: Seq<SortSpec>, width: nat) -> bool {
    forall|l: int| 0 <= l < levels.len() ==> ((#[trigger] levels[l]).key matches SortKey::Field(i) ==> i < width)
}

fn compare_rows(a: &QueryResultEntry, b: &QueryResultEntry, levels: &Vec<SortSpec>) -> (r: i8)
    requires
        levels_fit(levels@, a.fields@.len()),
        b.fields@.len() == a.fields@.len(),
    ensures
        r as int == row_cmp(a@, b@, levels@),
{
    let mut l: usize = 0;
    assert(levels@.skip(0) =~= levels@);
    while l < levels.len()
        invariant
            levels_fit(levels@, a.fields@.len()),
            b.fields@.len() == a.fields@.len(),
            l <= levels@.len(),
            row_cmp(a@, b@, levels@) == row_cmp(a@, b@, levels@.skip(l as int)),
        decreases levels@.len() - l,
    {
        let level = levels[l];
        let c: i8 = match level.key {
            SortKey::Count => if a.count < b.count {
                -1
            } else if a.count > b.count {
                1
            } else {
                0
            },
            SortKey::Field(i) => compare_values(&a.fields[i].1, &b.fields[i].1),
        };
        let c: i8 = if level.ascending { c } else { -c };
        assert(levels@.skip(l as int)[0] == level);
        assert(c as int == level_cmp(a@, b@, level));
        if c != 0 {
            return c;
        }
        assert(levels@.skip(l as int).drop_first() =~= levels@.skip(l + 1));
        l = l + 1;
    }
    0
}

/// Puts `rows` in the order `levels`, keeping every row.
pub fn order_rows(rows: Vec<QueryResultEntry>, levels: &Vec<SortSpec>) -> (r: Vec<QueryResultEntry>)
    requires
        forall|i: int| 0 <= i < rows@.len() ==> levels_fit(levels@, (#[trigger] rows@[i]).fields@.len()),
        forall|i: int, j: int| 0 <= i < rows@.len() && 0 <= j < rows@.len() ==> (#[trigger] rows@[i]).fields@.len() == (#[trigger] rows@[j]).fields@.len(),
    ensures
        r@.to_multiset() == rows@.to_multiset(),
        rows_ordered(r@.map_values(|e: QueryResultEntry| e@), levels@),
{
    broadcast use vstd::seq_lib::group_to_multiset_ensures, vstd::multiset::group_multiset_axioms;

    let mut sorted: Vec<QueryResultEntry> = Vec::new();
    let mut rest = rows;
    let ghost all = rest@;
    assert(sorted@.to_multiset() =~= Multiset::empty());
    // Rows are taken from the back of `rest` and inserted into `sorted` after
    // every row that does not come after them.
    while rest.len() > 0
        invariant
            forall|i: int| 0 <= i < all.len() ==> levels_fit(levels@, (#[trigger] all[i]).fields@.len()),
            forall|i: int, j: int| 0 <= i < all.len() && 0 <= j < all.len() ==> (#[trigger] all[i]).fields@.len() == (#[trigger] all[j]).fields@.len(),
            rest@.to_multiset().add(sorted@.to_multiset()) == all.to_multiset(),
            forall|i: int| 0 <= i < rest@.len() ==> all.contains(#[trigger] rest@[i]),
            forall|i: int| 0 <= i < sorted@.len() ==> all.contains(#[trigger] sorted@[i]),
            rows_ordered(sorted@.map_values(|e: QueryResultEntry| e@), levels@),
        decreases rest@.len(),
    {
        let ghost rest_before = rest@;
        let x = rest.pop().unwrap();
        let ghost before = sorted@;
        proof {
            assert(rest_before == rest@.push(x));
            vstd::seq_lib::to_multiset_build(rest@, x);
            assert(all.contains(x)) by {
                assert(rest_before[rest_before.len() - 1] == x);
            }
            assert forall|i: int| 0 <= i < rest@.len() implies all.contains(#[trigger] rest@[i]) by {
                assert(rest@[i] == rest_before[i]);
            }
        }
        let mut pos: usize = 0;
        let mut found = false;
        while pos < sorted.len() && !found
            invariant
                pos <= sorted@.len(),
                sorted@ == before,
                all.contains(x),
                forall|i: int| 0 <= i < all.len() ==> levels_fit(levels@, (#[trigger] all[i]).fields@.len()),
                forall|i: int, j: int| 0 <= i < all.len() && 0 <= j < all.len() ==> (#[trigger] all[i]).fields@.len() == (#[trigger] all[j]).fields@.len(),
                forall|i: int| 0 <= i < sorted@.len() ==> all.contains(#[trigger] sorted@[i]),
                forall|t: int| 0 <= t < pos ==> row_cmp(#[trigger] sorted@[t]@, x@, levels@) <= 0,
                found ==> pos < sorted@.len() && row_cmp(x@, sorted@[pos as int]@, levels@) < 0,
            decreases sorted@.len() - pos + if found { 0int } else { 1int },
        {
            assert(all.contains(sorted@[pos as int]));
            let c = compare_rows(&x, &sorted[pos], levels);
            if c < 0 {
                found = true;
            } else {
                proof {
                    lemma_row_cmp(x@, sorted@[pos as int]@, x@, levels@);
                }
                pos = pos + 1;
            }
        }
        proof {
            let m = before.map_values(|e: QueryResultEntry| e@);
            assert forall|t: int| pos <= t < before.len() implies row_cmp(x@, #[trigger] m[t], levels@) <= 0 by {
                if t > pos {
                    assert(row_cmp(m[pos as int], m[t], levels@) <= 0);
                    lemma_row_cmp(x@, m[pos as int], m[t], levels@);
                }
            }
        }
        sorted.insert(pos, x);
        proof {
            let m = before.map_values(|e: QueryResultEntry| e@);
            let n = sorted@.map_values(|e: QueryResultEntry| e@);
            assert(n =~= m.insert(pos as int, x@));
            assert forall|i: int, j: int| 0 <= i < j < n.len() implies row_cmp(n[i], n[j], levels@) <= 0 by {
                if j < pos {
                    assert(row_cmp(m[i], m[j], levels@) <= 0);
                } else if j == pos {
                    assert(row_cmp(before[i]@, x@, levels@) <= 0);
                } else if i < pos {
                    assert(row_cmp(m[i], m[j - 1], levels@) <= 0);
                } else if i == pos {
                    assert(row_cmp(x@, m[j - 1], levels@) <= 0);
                } else {
                    assert(row_cmp(m[i - 1], m[j - 1], levels@) <= 0);
                }
            }
            assert(sorted@.to_multiset() == before.to_multiset().insert(x));
            assert(rest@.to_multiset().add(sorted@.to_multiset()) =~= rest_before.to_multiset().add(before.to_multiset()));
            assert forall|i: int| 0 <= i < sorted@.len() implies all.contains(#[trigger] sorted@[i]) by {
                if i < pos {
                    assert(sorted@[i] == before[i]);
                } else if i > pos {
                    assert(sorted@[i] == before[i - 1]);
                }
            }
        }
    }
    proof {
        assert(rest@.to_multiset().len() == 0);
        assert(rest@.to_multiset() =~= Multiset::empty());
    }
    sorted
}

} // verus!
