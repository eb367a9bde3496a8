use vstd::prelude::*;

verus! {

/// One primitive value of a column. Floating-point values are carried as
/// their IEEE-754 bit pattern, so equality is bit-exact.
#[derive(Debug, Clone, PartialEq, Eq)]
pub enum Value {
    Int(i32),
    Float(u32),
    Bool(bool),
    Bytes(Vec<u8>),
}

/// The mathematical model of a [`Value`].
pub enum Cell {
    Int(i32),
    Float(u32),
    Bool(bool),
    Bytes(Seq<u8>),
}

impl View for Value {
    type V = Cell;

    open spec fn view(&self) -> Cell {
        match self {
            Value::Int(i) => Cell::Int(*i),
            Value::Float(f) => Cell::Float(*f),
            Value::Bool(b) => Cell::Bool(*b),
            Value::Bytes(b) => Cell::Bytes(b@),
        }
    }
}

/// Copies a byte string.
pub fn copy_bytes(b: &Vec<u8>) -> (r: Vec<u8>)
    ensures
        r@ == b@,
{
    let mut r: Vec<u8> = Vec::with_capacity(b.len());
    let mut i: usize = 0;
    while i < b.len()
        invariant
            i <= b.len(),
            r@ == b@.subrange(0, i as int),
        decreases b.len() - i,
    {
        r.push(b[i]);
        i += 1;
    }
    assert(r@ =~= b@);
    r
}

/// Copies a value.
pub fn copy_value(v: &Value) -> (r: Value)
    ensures
        r@ == v@,
{
    match v {
        Value::Int(i) => Value::Int(*i),
        Value::Float(f) => Value::Float(*f),
        Value::Bool(b) => Value::Bool(*b),
        Value::Bytes(b) => Value::Bytes(copy_bytes(b)),
    }
}

pub fn copy_opt_value(v: &Option<Value>) -> (r: Option<Value>)
    ensures
        opt_view(r) == opt_view(*v),
{
    match v {
        Some(x) => Some(copy_value(x)),
        None => None,
    }
}

pub open spec fn opt_view(v: Option<Value>) -> Option<Cell> {
    match v {
        Some(x) => Some(x@),
        None => None,
    }
}

/// One entry of a column's level stream: its definition level, its
/// repetition level, and the value when the entry is fully defined.
#[derive(Debug, Clone, PartialEq, Eq)]
pub struct Slot {
    pub def: i16,
    pub rep: i16,
    pub value: Option<Value>,
}

pub struct SlotView {
    pub def: i16,
    pub rep: i16,
    pub value: Option<Cell>,
}

impl View for Slot {
    type V = SlotView;

    open spec fn view(&self) -> SlotView {
        SlotView { def: self.def, rep: self.rep, value: opt_view(self.value) }
    }
}

pub open spec fn slots_view(s: Seq<Slot>) -> Seq<SlotView> {
    s.map_values(|x: Slot| x@)
}


/// A malformed level stream.
#[derive(Debug, Clone, Copy, PartialEq, Eq)]
pub enum LevelError {
    /// The entry at this position starts a row but does not have repetition level 0.
    BadRowStart(usize),
    /// The entry at this position has levels or a value that no encoding produces.
    BadEntry(usize),
}

pub open spec fn row_view(r: Vec<Option<Value>>) -> Seq<Option<Cell>> {
    r@.map_values(|e: Option<Value>| opt_view(e))
}

pub open spec fn rows_view(v: Vec<Vec<Option<Value>>>) -> Seq<Seq<Option<Cell>>> {
    v@.map_values(|r: Vec<Option<Value>>| row_view(r))
}

/// The entry written for the `j`-th element of a non-empty list: fully defined
/// when the element is present, one level short when it is absent; repetition
/// level 0 for the first element of a row and 1 for every later one.
pub open spec fn entry_slot(e: Option<Cell>, j: int, max_def: i16) -> SlotView {
    SlotView {
        def: if e is Some { max_def } else { (max_def - 1) as i16 },
        rep: if j == 0 { 0 } else { 1 },
        value: e,
    }
}

/// The single entry written for a row whose list is empty.
pub open spec fn empty_slot() -> SlotView {
    SlotView { def: 0, rep: 0, value: None }
}

/// The level stream of one row of a list column.
pub open spec fn encode_list(row: Seq<Option<Cell>>, max_def: i16) -> Seq<SlotView> {
    if row.len() == 0 {
        seq![empty_slot()]
    } else {
        row.map(|j: int, e: Option<Cell>| entry_slot(e, j, max_def))
    }
}

/// The level stream of a list column: the rows' streams, one after another.
pub open spec fn encode_lists(rows: Seq<Seq<Option<Cell>>>, max_def: i16) -> Seq<SlotView> {
    rows.map_values(|r: Seq<Option<Cell>>| encode_list(r, max_def)).flatten()
}

/// Rows that a list column with this maximum definition level can hold: an
/// absent element needs a level of its own between "no list" and "present".
pub open spec fn lists_wf(rows: Seq<Seq<Option<Cell>>>, max_def: i16) -> bool {
    &&& 1 <= max_def
    &&& forall|i: int, j: int|
        0 <= i < rows.len() && 0 <= j < rows[i].len() && max_def == 1 ==> (#[trigger] rows[i][j]) is Some
}

/// The streams that some rows encode to.
pub open spec fn in_list_image(s: Seq<SlotView>, max_def: i16) -> bool {
    exists|rows: Seq<Seq<Option<Cell>>>| lists_wf(rows, max_def) && encode_lists(rows, max_def) == s
}

/// An entry that may stand inside a non-empty list.
pub open spec fn entry_ok(s: SlotView, max_def: i16) -> bool {
    ||| s.def == max_def && s.value is Some
    ||| s.def == max_def - 1 && max_def >= 2 && s.value is None
}

pub proof fn lemma_encode_lists_cons(rows: Seq<Seq<Option<Cell>>>, max_def: i16)
    requires
        rows.len() > 0,
    ensures
        encode_lists(rows, max_def) == encode_list(rows[0], max_def) + encode_lists(rows.drop_first(), max_def),
{
    let m = rows.map_values(|r: Seq<Option<Cell>>| encode_list(r, max_def));
    assert(m.drop_first() =~= rows.drop_first().map_values(|r: Seq<Option<Cell>>| encode_list(r, max_def)));
}

pub proof fn lemma_encode_lists_push(rows: Seq<Seq<Option<Cell>>>, row: Seq<Option<Cell>>, max_def: i16)
    ensures
        encode_lists(rows.push(row), max_def) == encode_lists(rows, max_def) + encode_list(row, max_def),
{
    let m = rows.map_values(|r: Seq<Option<Cell>>| encode_list(r, max_def));
    assert(rows.push(row).map_values(|r: Seq<Option<Cell>>| encode_list(r, max_def)) =~= m.push(encode_list(row, max_def)));
    m.lemma_flatten_push(encode_list(row, max_def));
}

pub proof fn lemma_encode_lists_empty(max_def: i16)
    ensures
        encode_lists(Seq::<Seq<Option<Cell>>>::empty(), max_def) == Seq::<SlotView>::empty(),
{
    assert(Seq::<Seq<Option<Cell>>>::empty().map_values(|r: Seq<Option<Cell>>| encode_list(r, max_def)) =~= Seq::<Seq<SlotView>>::empty());
}

/// The shape of one row's stream: it is never empty, it starts a row, every
/// later entry continues it, and each entry is one that a decoder accepts.
pub proof fn lemma_encode_list_shape(row: Seq<Option<Cell>>, max_def: i16)
    requires
        1 <= max_def,
        max_def == 1 ==> forall|j: int| 0 <= j < row.len() ==> (#[trigger] row[j]) is Some,
    ensures
        encode_list(row, max_def).len() >= 1,
        encode_list(row, max_def)[0].rep == 0,
        row.len() == 0 ==> encode_list(row, max_def)[0] == empty_slot(),
        row.len() > 0 ==> encode_list(row, max_def).len() == row.len(),
        forall|j: int| 1 <= j < encode_list(row, max_def).len() ==> (#[trigger] encode_list(row, max_def)[j]).rep == 1,
        forall|j: int| 0 <= j < row.len() ==> entry_ok(#[trigger] encode_list(row, max_def)[j], max_def),
        forall|j: int| 0 <= j < row.len() ==> (#[trigger] encode_list(row, max_def)[j]).value == row[j],
        row.len() > 0 ==> encode_list(row, max_def)[0].def != 0,
{
    if row.len() > 0 {
        assert(entry_ok(encode_list(row, max_def)[0], max_def));
    }
}

/// Different rows give different streams.
pub proof fn lemma_encode_lists_injective(r1: Seq<Seq<Option<Cell>>>, r2: Seq<Seq<Option<Cell>>>, max_def: i16)
    requires
        lists_wf(r1, max_def),
        lists_wf(r2, max_def),
        encode_lists(r1, max_def) == encode_lists(r2, max_def),
    ensures
        r1 == r2,
    decreases r1.len(),
{
    if r1.len() == 0 {
        lemma_encode_lists_empty(max_def);
        if r2.len() > 0 {
            lemma_encode_lists_cons(r2, max_def);
            lemma_row_wf(r2, 0, max_def);
            lemma_encode_list_shape(r2[0], max_def);
        }
        assert(r1 =~= r2);
    } else {
        lemma_encode_lists_cons(r1, max_def);
        lemma_row_wf(r1, 0, max_def);
        lemma_encode_list_shape(r1[0], max_def);
        if r2.len() == 0 {
            lemma_encode_lists_empty(max_def);
            assert(false);
        }
        lemma_encode_lists_cons(r2, max_def);
        lemma_row_wf(r2, 0, max_def);
        lemma_encode_list_shape(r2[0], max_def);
        let s = encode_lists(r1, max_def);
        let e1 = encode_list(r1[0], max_def);
        let e2 = encode_list(r2[0], max_def);
        let t1 = encode_lists(r1.drop_first(), max_def);
        let t2 = encode_lists(r2.drop_first(), max_def);
        if r1.drop_first().len() > 0 {
            lemma_encode_lists_cons(r1.drop_first(), max_def);
            lemma_row_wf(r1.drop_first(), 0, max_def);
            lemma_encode_list_shape(r1.drop_first()[0], max_def);
        }
        if r2.drop_first().len() > 0 {
            lemma_encode_lists_cons(r2.drop_first(), max_def);
            lemma_row_wf(r2.drop_first(), 0, max_def);
            lemma_encode_list_shape(r2.drop_first()[0], max_def);
        }
        if e1.len() < e2.len() {
            assert(s[e1.len() as int] == e2[e1.len() as int]);
            if t1.len() == 0 {
                assert(false);
            }
            assert(s[e1.len() as int] == t1[0]);
            assert(false);
        }
        if e2.len() < e1.len() {
            assert(s[e2.len() as int] == e1[e2.len() as int]);
            if t2.len() == 0 {
                assert(false);
            }
            assert(s[e2.len() as int] == t2[0]);
            assert(false);
        }
        assert(e1 =~= s.subrange(0, e1.len() as int));
        assert(e2 =~= s.subrange(0, e2.len() as int));
        assert(t1 =~= s.subrange(e1.len() as int, s.len() as int));
        assert(t2 =~= s.subrange(e2.len() as int, s.len() as int));
        if r1[0].len() == 0 && r2[0].len() > 0 {
            assert(e1[0] == e2[0]);
            assert(false);
        }
        if r2[0].len() == 0 && r1[0].len() > 0 {
            assert(e1[0] == e2[0]);
            assert(false);
        }
        if r1[0].len() > 0 {
            assert forall|j: int| 0 <= j < r1[0].len() implies r1[0][j] == r2[0][j] by {
                assert(e1[j] == e2[j]);
            }
        }
        assert(r1[0] =~= r2[0]);
        lemma_wf_drop_first(r1, max_def);
        lemma_wf_drop_first(r2, max_def);
        lemma_encode_lists_injective(r1.drop_first(), r2.drop_first(), max_def);
        assert(r1 =~= r2.drop_first().insert(0, r2[0]));
        assert(r2 =~= r2.drop_first().insert(0, r2[0]));
    }
}

pub proof fn lemma_row_wf(rows: Seq<Seq<Option<Cell>>>, i: int, max_def: i16)
    requires
        lists_wf(rows, max_def),
        0 <= i < rows.len(),
    ensures
        max_def == 1 ==> forall|j: int| 0 <= j < rows[i].len() ==> (#[trigger] rows[i][j]) is Some,
{
    if max_def == 1 {
        assert forall|j: int| 0 <= j < rows[i].len() implies (#[trigger] rows[i][j]) is Some by {
            assert(rows[i][j] is Some);
        }
    }
}

pub proof fn lemma_wf_drop_first(rows: Seq<Seq<Option<Cell>>>, max_def: i16)
    requires
        lists_wf(rows, max_def),
        rows.len() > 0,
    ensures
        lists_wf(rows.drop_first(), max_def),
{
    assert forall|i: int, j: int|
        0 <= i < rows.drop_first().len() && 0 <= j < rows.drop_first()[i].len() && max_def == 1
        implies (#[trigger] rows.drop_first()[i][j]) is Some by {
        assert(rows.drop_first()[i] == rows[i + 1]);
        assert(rows[i + 1][j] is Some);
    }
}


pub proof fn lemma_wf_push(rows: Seq<Seq<Option<Cell>>>, row: Seq<Option<Cell>>, max_def: i16)
    requires
        lists_wf(rows, max_def),
        max_def == 1 ==> forall|j: int| 0 <= j < row.len() ==> (#[trigger] row[j]) is Some,
    ensures
        lists_wf(rows.push(row), max_def),
{
    assert forall|i: int, j: int|
        0 <= i < rows.push(row).len() && 0 <= j < rows.push(row)[i].len() && max_def == 1
        implies (#[trigger] rows.push(row)[i][j]) is Some by {
        if i < rows.len() {
            assert(rows[i][j] is Some);
        } else {
            assert(row[j] is Some);
        }
    }
}

/// Inside the stream of some rows, an entry that continues the first row is
/// one of that row's elements.
proof fn lemma_continuation(all: Seq<SlotView>, row_start: int, n: int, rr: Seq<Seq<Option<Cell>>>, max_def: i16, k: int)
    requires
        0 <= row_start < n == all.len(),
        lists_wf(rr, max_def),
        encode_lists(rr, max_def) == all.subrange(row_start, n),
        rr.len() > 0,
        1 <= k <= rr[0].len(),
        row_start + k < n,
        all[row_start + k].rep == 1,
    ensures
        k < rr[0].len(),
        entry_ok(all[row_start + k], max_def),
{
    let rest = all.subrange(row_start, n);
    let first = rr[0];
    lemma_encode_lists_cons(rr, max_def);
    lemma_row_wf(rr, 0, max_def);
    lemma_encode_list_shape(first, max_def);
    let el = encode_list(first, max_def);
    let tail = encode_lists(rr.drop_first(), max_def);
    assert(rest[k] == all[row_start + k]);
    if k == first.len() {
        assert(rest[k] == tail[0]);
        if rr.drop_first().len() == 0 {
            lemma_encode_lists_empty(max_def);
            assert(false);
        }
        lemma_encode_lists_cons(rr.drop_first(), max_def);
        lemma_row_wf(rr.drop_first(), 0, max_def);
        lemma_encode_list_shape(rr.drop_first()[0], max_def);
        assert(false);
    }
    assert(rest[k] == el[k]);
}

/// Whether an entry that may stand inside a list is one; exactly `entry_ok`.
fn check_entry(s: &Slot, max_def: i16) -> (r: bool)
    requires
        1 <= max_def,
    ensures
        r == entry_ok(s@, max_def),
{
    if s.def == max_def {
        s.value.is_some()
    } else {
        s.def == max_def - 1 && max_def >= 2 && s.value.is_none()
    }
}

/// Reassembles the rows of a list column from its level stream: a row starts
/// at each entry with repetition level 0, an entry with definition level 0
/// stands for an empty list, and every later entry of the row has repetition
/// level 1. Fails on a stream that no rows encode to.
pub fn decode_lists(slots: &Vec<Slot>, max_def: i16) -> (r: Result<Vec<Vec<Option<Value>>>, LevelError>)
    requires
        1 <= max_def,
    ensures
        r is Ok <==> in_list_image(slots_view(slots@), max_def),
        r matches Ok(rows) ==> lists_wf(rows_view(rows), max_def) && encode_lists(rows_view(rows), max_def)
            == slots_view(slots@),
{
    let ghost all = slots_view(slots@);
    let ghost img = in_list_image(all, max_def);
    let n = slots.len();
    let mut rows: Vec<Vec<Option<Value>>> = Vec::new();
    let mut p: usize = 0;
    proof {
        lemma_encode_lists_empty(max_def);
        assert(rows_view(rows) =~= Seq::<Seq<Option<Cell>>>::empty());
        assert(all.subrange(0, 0) =~= Seq::<SlotView>::empty());
        assert(all.subrange(0, n as int) =~= all);
    }
    while p < n
        invariant
            n == slots.len(),
            all == slots_view(slots@),
            1 <= max_def,
            p <= n,
            lists_wf(rows_view(rows), max_def),
            encode_lists(rows_view(rows), max_def) == all.subrange(0, p as int),
            img == in_list_image(all, max_def),
            img ==> in_list_image(all.subrange(p as int, n as int), max_def),
        decreases n - p,
    {
        let ghost row_start = p as int;
        let ghost rest = all.subrange(row_start, n as int);
        let ghost rr: Seq<Seq<Option<Cell>>> = choose|rr: Seq<Seq<Option<Cell>>>|
            lists_wf(rr, max_def) && encode_lists(rr, max_def) == rest;
        let ghost first: Seq<Option<Cell>> = if img { rr[0] } else { Seq::empty() };
        proof {
            if img {
                if rr.len() == 0 {
                    lemma_encode_lists_empty(max_def);
                    assert(rest.len() == 0);
                    assert(false);
                }
                lemma_encode_lists_cons(rr, max_def);
                lemma_row_wf(rr, 0, max_def);
                lemma_encode_list_shape(rr[0], max_def);
                assert(rest[0] == encode_list(first, max_def)[0]);
            }
        }
        let s = &slots[p];
        assert(s@ == all[row_start]);
        if s.rep != 0 {
            return Err(LevelError::BadRowStart(p));
        }
        let mut row: Vec<Option<Value>> = Vec::new();
        if s.def == 0 {
            if s.value.is_some() {
                proof {
                    if img && first.len() > 0 {
                        assert(false);
                    }
                }
                return Err(LevelError::BadEntry(p));
            }
            proof {
                if img && first.len() > 0 {
                    assert(false);
                }
            }
            p += 1;
        } else {
            if !check_entry(s, max_def) {
                return Err(LevelError::BadEntry(p));
            }
            row.push(copy_opt_value(&s.value));
            p += 1;
            proof {
                assert(row_view(row) =~= seq![all[row_start].value]);
                if img {
                    assert(first.len() > 0);
                    assert(row_view(row) =~= first.take(1));
                }
            }
            while p < n && slots[p].rep == 1
                invariant
                    n == slots.len(),
                    all == slots_view(slots@),
                    1 <= max_def,
                    0 <= row_start < p <= n,
                    img == in_list_image(all, max_def),
                    row.len() == p - row_start,
                    img ==> lists_wf(rr, max_def) && encode_lists(rr, max_def) == rest && rr.len() > 0 && first == rr[0],
                    row.len() >= 1,
                    all[row_start].rep == 0,
                    entry_ok(all[row_start], max_def),
                    forall|j: int| 0 <= j < row.len() ==> entry_ok(#[trigger] all[row_start + j], max_def),
                    forall|j: int| 1 <= j < row.len() ==> (#[trigger] all[row_start + j]).rep == 1,
                    forall|j: int| 0 <= j < row.len() ==> (#[trigger] row_view(row)[j]) == all[row_start + j].value,
                    img ==> row.len() <= first.len(),
                    img ==> encode_list(first, max_def) == rest.subrange(0, encode_list(first, max_def).len() as int),
                    img ==> first.len() > 0,
                    rest == all.subrange(row_start, n as int),
                    img ==> max_def == 1 ==> forall|j: int| 0 <= j < first.len() ==> (#[trigger] first[j]) is Some,
                decreases n - p,
            {
                let t = &slots[p];
                proof {
                    assert(t@ == all[p as int]);
                    if img {
                        lemma_continuation(all, row_start, n as int, rr, max_def, (p - row_start) as int);
                    }
                }
                if !check_entry(t, max_def) {
                    return Err(LevelError::BadEntry(p));
                }
                let ghost old_row = row_view(row);
                row.push(copy_opt_value(&t.value));
                proof {
                    assert(row_view(row) =~= old_row.push(all[p as int].value));
                }
                p += 1;
            }
        }
        proof {
            let rv = row_view(row);
            let seg = all.subrange(row_start, p as int);
            if rv.len() > 0 {
                assert forall|j: int| 0 <= j < rv.len() implies #[trigger] seg[j] == entry_slot(rv[j], j, max_def) by {
                    assert(seg[j] == all[row_start + j]);
                }
                assert(encode_list(rv, max_def) =~= seg);
            } else {
                assert(encode_list(rv, max_def) =~= seg);
            }
            assert forall|j: int| 0 <= j < rv.len() && max_def == 1 implies (#[trigger] rv[j]) is Some by {
                assert(entry_ok(all[row_start + j], max_def));
            }
            let old_rows = rows_view(rows);
            lemma_encode_lists_push(old_rows, rv, max_def);
            lemma_wf_push(old_rows, rv, max_def);
            assert(all.subrange(0, p as int) =~= all.subrange(0, row_start) + seg);
            if img {
                lemma_encode_list_shape(first, max_def);
                lemma_encode_lists_cons(rr, max_def);
                let el = encode_list(first, max_def);
                if rv.len() > 0 {
                    // the row read ends where the first row of `rr` ends
                    if rv.len() < first.len() {
                        assert(p < n);
                        assert(rest[(p - row_start) as int] == el[(p - row_start) as int]);
                        assert(false);
                    }
                    assert forall|j: int| 0 <= j < rv.len() implies rv[j] == first[j] by {
                        assert(rest[j] == el[j]);
                        assert(rest[j] == all[row_start + j]);
                    }
                    assert(rv =~= first);
                }
                assert(el.len() == p - row_start);
                let tail = rr.drop_first();
                lemma_wf_drop_first(rr, max_def);
                assert(all.subrange(p as int, n as int) =~= rest.subrange(el.len() as int, rest.len() as int));
                assert(rest =~= el + encode_lists(tail, max_def));
                assert(encode_lists(tail, max_def) =~= all.subrange(p as int, n as int));
            }
        }
        let ghost old_rv = rows_view(rows);
        let ghost new_row = row_view(row);
        rows.push(row);
        proof {
            assert(rows_view(rows) =~= old_rv.push(new_row));
        }
    }
    proof {
        assert(all.subrange(0, n as int) =~= all);
    }
    Ok(rows)
}


/// The entry of a column that holds one value per row, with no list: defined
/// when the value is present, level 0 when it is absent.
pub open spec fn scalar_slot(v: Option<Cell>, max_def: i16) -> SlotView {
    SlotView { def: if v is Some { max_def } else { 0 }, rep: 0, value: v }
}

/// Pushes the entries of one row of a list column.
pub fn push_list_entry(out: &mut Vec<Slot>, e: Option<Value>, j: usize, max_def: i16)
    requires
        1 <= max_def,
    ensures
        final(out)@.len() == old(out)@.len() + 1,
        slots_view(final(out)@) == slots_view(old(out)@).push(entry_slot(opt_view(e), j as int, max_def)),
{
    let ghost ev = opt_view(e);
    let def = if e.is_some() { max_def } else { max_def - 1 };
    let rep: i16 = if j == 0 { 0 } else { 1 };
    let ghost old_v = slots_view(out@);
    out.push(Slot { def, rep, value: e });
    proof {
        assert(slots_view(out@) =~= old_v.push(entry_slot(ev, j as int, max_def)));
    }
}

/// Pushes the single entry of a row whose list is empty.
pub fn push_empty_list(out: &mut Vec<Slot>)
    ensures
        slots_view(final(out)@) == slots_view(old(out)@).push(empty_slot()),
{
    let ghost old_v = slots_view(out@);
    out.push(Slot { def: 0, rep: 0, value: None });
    proof {
        assert(slots_view(out@) =~= old_v.push(empty_slot()));
    }
}

/// The values of the fully defined entries, in order: what the storage
/// engine keeps besides the levels.
pub open spec fn present_values(s: Seq<SlotView>) -> Seq<Cell>
    decreases s.len(),
{
    if s.len() == 0 {
        Seq::empty()
    } else {
        let rest = present_values(s.drop_last());
        match s.last().value {
            Some(v) => rest.push(v),
            None => rest,
        }
    }
}

pub open spec fn def_levels(s: Seq<SlotView>) -> Seq<i16> {
    s.map_values(|x: SlotView| x.def)
}

pub open spec fn rep_levels(s: Seq<SlotView>) -> Seq<i16> {
    s.map_values(|x: SlotView| x.rep)
}

/// A stream in which an entry holds a value exactly when it is fully defined.
pub open spec fn consistent(s: Seq<SlotView>, max_def: i16) -> bool {
    forall|i: int| 0 <= i < s.len() ==> ((#[trigger] s[i]).value is Some <==> s[i].def == max_def)
}

/// Number of entries of `defs` at level `max_def`.
pub open spec fn count_defined(defs: Seq<i16>, max_def: i16) -> nat
    decreases defs.len(),
{
    if defs.len() == 0 {
        0
    } else {
        count_defined(defs.drop_last(), max_def) + if defs.last() == max_def { 1nat } else { 0nat }
    }
}

pub proof fn lemma_present_count(s: Seq<SlotView>, max_def: i16)
    requires
        consistent(s, max_def),
    ensures
        present_values(s).len() == count_defined(def_levels(s), max_def),
    decreases s.len(),
{
    if s.len() > 0 {
        let t = s.drop_last();
        assert(def_levels(s).drop_last() =~= def_levels(t));
        assert(consistent(t, max_def)) by {
            assert forall|i: int| 0 <= i < t.len() implies ((#[trigger] t[i]).value is Some <==> t[i].def == max_def) by {
                assert(t[i] == s[i]);
            }
        }
        assert(s.last() == s[s.len() - 1]);
        lemma_present_count(t, max_def);
    }
}

/// Splits a level stream into what the storage engine stores: the present
/// values, the definition levels and the repetition levels.
pub fn split_column(slots: &Vec<Slot>) -> (r: (Vec<Value>, Vec<i16>, Vec<i16>))
    ensures
        r.0@.map_values(|v: Value| v@) == present_values(slots_view(slots@)),
        r.1@ == def_levels(slots_view(slots@)),
        r.2@ == rep_levels(slots_view(slots@)),
{
    let ghost sv = slots_view(slots@);
    let mut values: Vec<Value> = Vec::new();
    let mut defs: Vec<i16> = Vec::new();
    let mut reps: Vec<i16> = Vec::new();
    let mut i: usize = 0;
    proof {
        assert(sv.take(0) =~= Seq::<SlotView>::empty());
        assert(values@.map_values(|v: Value| v@) =~= Seq::<Cell>::empty());
    }
    while i < slots.len()
        invariant
            sv == slots_view(slots@),
            i <= slots.len(),
            values@.map_values(|v: Value| v@) == present_values(sv.take(i as int)),
            defs@ == def_levels(sv.take(i as int)),
            reps@ == rep_levels(sv.take(i as int)),
        decreases slots.len() - i,
    {
        let s = &slots[i];
        let ghost old_vals = values@.map_values(|v: Value| v@);
        proof {
            assert(sv.take(i + 1).drop_last() =~= sv.take(i as int));
            assert(sv.take(i + 1).last() == s@);
        }
        match &s.value {
            Some(v) => {
                values.push(copy_value(v));
                proof {
                    assert(values@.map_values(|v: Value| v@) =~= old_vals.push(v@));
                }
            },
            None => {},
        }
        defs.push(s.def);
        reps.push(s.rep);
        proof {
            assert(defs@ =~= def_levels(sv.take(i + 1)));
            assert(reps@ =~= rep_levels(sv.take(i + 1)));
        }
        i += 1;
    }
    proof {
        assert(sv.take(i as int) =~= sv);
    }
    (values, defs, reps)
}

/// Joins what the storage engine stores back into a level stream: the
/// entries at definition level `max_def` take the values in order, the
/// others hold none. Fails when the level streams differ in length or the
/// values are not as many as the fully defined entries.
pub fn join_column(values: &Vec<Value>, defs: &Vec<i16>, reps: &Vec<i16>, max_def: i16) -> (r: Result<Vec<Slot>, LevelError>)
    ensures
        r is Ok <==> defs.len() == reps.len() && count_defined(defs@, max_def) == values.len(),
        r matches Ok(slots) ==> consistent(slots_view(slots@), max_def)
            && present_values(slots_view(slots@)) == values@.map_values(|v: Value| v@)
            && def_levels(slots_view(slots@)) == defs@
            && rep_levels(slots_view(slots@)) == reps@,
{
    let ghost vv = values@.map_values(|v: Value| v@);
    if defs.len() != reps.len() {
        return Err(LevelError::BadEntry(0));
    }
    let mut out: Vec<Slot> = Vec::new();
    let mut next: usize = 0;
    let mut i: usize = 0;
    proof {
        assert(defs@.take(0) =~= Seq::<i16>::empty());
        assert(slots_view(out@) =~= Seq::<SlotView>::empty());
        assert(vv.take(0) =~= Seq::<Cell>::empty());
    }
    while i < defs.len()
        invariant
            vv == values@.map_values(|v: Value| v@),
            defs.len() == reps.len(),
            i <= defs.len(),
            next == count_defined(defs@.take(i as int), max_def),
            out.len() == i,
            consistent(slots_view(out@), max_def),
            next <= values.len() ==> present_values(slots_view(out@)) == vv.take(next as int),
            def_levels(slots_view(out@)) == defs@.take(i as int),
            rep_levels(slots_view(out@)) == reps@.take(i as int),
        decreases defs.len() - i,
    {
        let ghost old_out = slots_view(out@);
        proof {
            assert(defs@.take(i + 1).drop_last() =~= defs@.take(i as int));
            assert(defs@.take(i + 1).last() == defs@[i as int]);
        }
        if defs[i] == max_def {
            if next >= values.len() {
                proof {
                    lemma_count_prefix(defs@, max_def, i + 1, defs.len() as int);
                    assert(defs@.take(defs.len() as int) =~= defs@);
                }
                return Err(LevelError::BadEntry(i));
            }
            let v = copy_value(&values[next]);
            out.push(Slot { def: defs[i], rep: reps[i], value: Some(v) });
            proof {
                assert(vv.take(next + 1) =~= vv.take(next as int).push(vv[next as int]));
            }
            next += 1;
        } else {
            out.push(Slot { def: defs[i], rep: reps[i], value: None });
        }
        proof {
            let nv = slots_view(out@);
            assert(nv =~= old_out.push(nv[i as int]));
            assert(nv.drop_last() =~= old_out);
            assert(def_levels(nv) =~= defs@.take(i + 1));
            assert(rep_levels(nv) =~= reps@.take(i + 1));
            assert forall|j: int| 0 <= j < nv.len() implies ((#[trigger] nv[j]).value is Some <==> nv[j].def == max_def) by {
                if j < i {
                    assert(nv[j] == old_out[j]);
                }
            }
        }
        i += 1;
    }
    proof {
        assert(defs@.take(i as int) =~= defs@);
        assert(reps@.take(i as int) =~= reps@);
    }
    if next != values.len() {
        return Err(LevelError::BadEntry(defs.len()));
    }
    proof {
        assert(vv.take(next as int) =~= vv);
    }
    Ok(out)
}

/// The streams of list columns hold a value exactly at the entries that are
/// fully defined.
pub proof fn lemma_encode_lists_consistent(rows: Seq<Seq<Option<Cell>>>, max_def: i16)
    requires
        1 <= max_def,
    ensures
        consistent(encode_lists(rows, max_def), max_def),
    decreases rows.len(),
{
    if rows.len() == 0 {
        lemma_encode_lists_empty(max_def);
    } else {
        lemma_encode_lists_cons(rows, max_def);
        lemma_encode_lists_consistent(rows.drop_first(), max_def);
        let a = encode_list(rows[0], max_def);
        let b = encode_lists(rows.drop_first(), max_def);
        assert forall|i: int| 0 <= i < (a + b).len() implies ((#[trigger] (a + b)[i]).value is Some <==> (a + b)[i].def == max_def) by {
            if i >= a.len() {
                assert((a + b)[i] == b[i - a.len()]);
            }
        }
    }
}

proof fn lemma_count_prefix(defs: Seq<i16>, max_def: i16, a: int, b: int)
    requires
        0 <= a <= b <= defs.len(),
    ensures
        count_defined(defs.take(a), max_def) <= count_defined(defs.take(b), max_def),
    decreases b - a,
{
    if a < b {
        lemma_count_prefix(defs, max_def, a, b - 1);
        assert(defs.take(b).drop_last() =~= defs.take(b - 1));
    }
}

/// Storing a column loses nothing: the parts that `split_column` gives for
/// a consistent level stream are ones that `join_column` accepts (as many
/// values as fully defined entries), and the only consistent stream with
/// those parts is the stream itself.
pub proof fn lemma_split_join(s: Seq<SlotView>, t: Seq<SlotView>, max_def: i16)
    requires
        consistent(s, max_def),
        consistent(t, max_def),
        present_values(s) == present_values(t),
        def_levels(s) == def_levels(t),
        rep_levels(s) == rep_levels(t),
    ensures
        count_defined(def_levels(s), max_def) == present_values(s).len(),
        s == t,
    decreases s.len(),
{
    lemma_present_count(s, max_def);
    assert(s.len() == def_levels(s).len());
    assert(t.len() == def_levels(t).len());
    if s.len() > 0 {
        let n = s.len() - 1;
        assert(def_levels(s).drop_last() =~= def_levels(s.drop_last()));
        assert(def_levels(t).drop_last() =~= def_levels(t.drop_last()));
        assert(rep_levels(s).drop_last() =~= rep_levels(s.drop_last()));
        assert(rep_levels(t).drop_last() =~= rep_levels(t.drop_last()));
        assert(s.last() == s[n] && t.last() == t[n]);
        assert(def_levels(s)[n] == def_levels(t)[n]);
        assert(rep_levels(s)[n] == rep_levels(t)[n]);
        assert(consistent(s.drop_last(), max_def)) by {
            assert forall|i: int| 0 <= i < s.drop_last().len() implies ((#[trigger] s.drop_last()[i]).value is Some <==> s.drop_last()[i].def == max_def) by {
                assert(s.drop_last()[i] == s[i]);
            }
        }
        assert(consistent(t.drop_last(), max_def)) by {
            assert forall|i: int| 0 <= i < t.drop_last().len() implies ((#[trigger] t.drop_last()[i]).value is Some <==> t.drop_last()[i].def == max_def) by {
                assert(t.drop_last()[i] == t[i]);
            }
        }
        assert(def_levels(s)[n] == s[n].def);
        assert(def_levels(t)[n] == t[n].def);
        assert(rep_levels(s)[n] == s[n].rep);
        assert(rep_levels(t)[n] == t[n].rep);
        assert(s[n].def == t[n].def);
        if s[n].value is Some {
            assert(t[n].value is Some);
            assert(present_values(s).drop_last() =~= present_values(s.drop_last()));
            assert(present_values(t).drop_last() =~= present_values(t.drop_last()));
            assert(present_values(s).last() == present_values(t).last());
            assert(s[n].value == Some(present_values(s).last()));
            assert(t[n].value == Some(present_values(t).last()));
        } else {
            assert(t[n].value is None);
        }
        assert(s[n] == t[n]);
        lemma_split_join(s.drop_last(), t.drop_last(), max_def);
        assert(s =~= s.drop_last().push(s[n]));
        assert(t =~= t.drop_last().push(t[n]));
    } else {
        assert(s =~= t);
    }
}

} // verus!
