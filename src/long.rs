use vstd::prelude::*;
use crate::model::{PrecursorView, RawSpectrum, SpectrumView, spectra_view};

verus! {

/// Whether two byte strings are equal.
pub fn bytes_eq(a: &Vec<u8>, b: &Vec<u8>) -> (r: bool)
    ensures
        r == (a@ == b@),
{
    if a.len() != b.len() {
        return false;
    }
    let mut i: usize = 0;
    while i < a.len()
        invariant
            a.len() == b.len(),
            i <= a.len(),
            forall|j: int| 0 <= j < i ==> a@[j] == b@[j],
        decreases a.len() - i,
    {
        if a[i] != b[i] {
            return false;
        }
        i += 1;
    }
    proof {
        assert(a@ =~= b@);
    }
    true
}

/// The ordinal that an index of scan ids gives `id`: the last position at
/// which it was inserted.
pub open spec fn lookup(ids: Seq<Seq<u8>>, id: Seq<u8>) -> Option<nat>
    decreases ids.len(),
{
    if ids.len() == 0 {
        None
    } else if ids.last() == id {
        Some((ids.len() - 1) as nat)
    } else {
        lookup(ids.drop_last(), id)
    }
}

pub proof fn lemma_lookup_bound(ids: Seq<Seq<u8>>, id: Seq<u8>)
    ensures
        lookup(ids, id) matches Some(k) ==> k < ids.len() && ids[k as int] == id,
    decreases ids.len(),
{
    if ids.len() > 0 && ids.last() != id {
        lemma_lookup_bound(ids.drop_last(), id);
    }
}

/// The ids of the scans written so far, in write order: the position of an
/// id is the ordinal of its scan.
pub struct ScanIndex {
    ids: Vec<Vec<u8>>,
}

impl View for ScanIndex {
    type V = Seq<Seq<u8>>;

    closed spec fn view(&self) -> Seq<Seq<u8>> {
        self.ids@.map_values(|b: Vec<u8>| b@)
    }
}

impl ScanIndex {
    pub fn new() -> (r: ScanIndex)
        ensures
            r@ == Seq::<Seq<u8>>::empty(),
    {
        let r = ScanIndex { ids: Vec::new() };
        proof {
            assert(r@ =~= Seq::<Seq<u8>>::empty());
        }
        r
    }

    pub fn len(&self) -> (r: usize)
        ensures
            r == self@.len(),
    {
        self.ids.len()
    }

    /// Records the next ordinal's id.
    pub fn insert(&mut self, id: &Vec<u8>)
        ensures
            final(self)@ == old(self)@.push(id@),
    {
        let ghost old_v = self@;
        self.ids.push(crate::levels::copy_bytes(id));
        proof {
            assert(self@ =~= old_v.push(id@));
        }
    }

    /// The ordinal of `id`; the latest one where an id was inserted twice.
    /// The search runs from the newest scan back, where a precursor's scan
    /// usually is.
    pub fn get(&self, id: &Vec<u8>) -> (r: Option<usize>)
        ensures
            r matches Some(k) ==> lookup(self@, id@) == Some(k as nat),
            r is None ==> lookup(self@, id@) is None,
    {
        let ghost v = self@;
        let mut i: usize = self.ids.len();
        proof {
            assert(v.take(i as int) =~= v);
        }
        while i > 0
            invariant
                v == self@,
                i <= self.ids.len(),
                lookup(v, id@) == lookup(v.take(i as int), id@),
            decreases i,
        {
            let ghost t = v.take(i as int);
            proof {
                assert(t.last() == self.ids@[i - 1]@);
                assert(t.drop_last() =~= v.take(i - 1));
            }
            if bytes_eq(&self.ids[i - 1], id) {
                return Some(i - 1);
            }
            i -= 1;
        }
        proof {
            assert(v.take(0).len() == 0);
        }
        None
    }
}

/// The values of a column in a chunk's buffer: present values in order with,
/// for a nullable column, one definition level per row (1 present, 0 absent).
pub open spec fn present<T>(s: Seq<Option<T>>) -> Seq<T>
    decreases s.len(),
{
    if s.len() == 0 {
        Seq::empty()
    } else {
        let rest = present(s.drop_last());
        match s.last() {
            Some(v) => rest.push(v),
            None => rest,
        }
    }
}

pub open spec fn def_of<T>(e: Option<T>) -> i16 {
    if e is Some { 1 } else { 0 }
}

/// One column's buffer in the long layout. Its rows are `Option`s; a column
/// that is not nullable holds only present values.
pub struct ColumnWriter<T> {
    values: Vec<T>,
    def_levels: Vec<i16>,
    nullable: bool,
    rows: Ghost<Seq<Option<T>>>,
}

impl<T> View for ColumnWriter<T> {
    type V = Seq<Option<T>>;

    closed spec fn view(&self) -> Seq<Option<T>> {
        self.rows@
    }
}

impl<T: Copy> ColumnWriter<T> {
    pub closed spec fn wf(&self) -> bool {
        &&& self.values@ == present(self.rows@)
        &&& self.nullable ==> self.def_levels@ == self.rows@.map_values(|e: Option<T>| def_of(e))
        &&& !self.nullable ==> self.def_levels@.len() == 0 && forall|i: int| 0 <= i < self.rows@.len() ==> (#[trigger] self.rows@[i]) is Some
    }

    pub closed spec fn is_nullable(&self) -> bool {
        self.nullable
    }

    /// An empty buffer.
    pub fn new(nullable: bool) -> (r: ColumnWriter<T>)
        ensures
            r.wf(),
            r@ == Seq::<Option<T>>::empty(),
            r.is_nullable() == nullable,
    {
        let r = ColumnWriter { values: Vec::new(), def_levels: Vec::new(), nullable, rows: Ghost(Seq::empty()) };
        proof {
            assert(r.def_levels@ =~= r.rows@.map_values(|e: Option<T>| def_of(e)));
        }
        r
    }

    pub fn nullable(&self) -> (r: bool)
        ensures
            r == self.is_nullable(),
    {
        self.nullable
    }

    /// The present values, in row order.
    pub fn values(&self) -> (r: &Vec<T>)
        requires
            self.wf(),
        ensures
            r@ == present(self@),
    {
        &self.values
    }

    /// The definition levels of a nullable column, one per row; empty for a
    /// column that is not nullable.
    pub fn def_levels(&self) -> (r: &Vec<i16>)
        requires
            self.wf(),
        ensures
            self.is_nullable() ==> r@ == self@.map_values(|e: Option<T>| def_of(e)),
            !self.is_nullable() ==> r@.len() == 0,
    {
        &self.def_levels
    }

    pub fn len(&self) -> (r: usize)
        requires
            self.wf(),
        ensures
            r == self@.len(),
    {
        if self.nullable {
            self.def_levels.len()
        } else {
            proof {
                self.lemma_required_present();
            }
            self.values.len()
        }
    }

    proof fn lemma_required_present(&self)
        requires
            self.wf(),
            !self.nullable,
        ensures
            present(self.rows@).len() == self.rows@.len(),
    {
        lemma_all_present(self.rows@);
    }

    /// Appends one row.
    pub fn push(&mut self, e: Option<T>)
        requires
            old(self).wf(),
            !old(self).is_nullable() ==> e is Some,
        ensures
            final(self).wf(),
            final(self).is_nullable() == old(self).is_nullable(),
            final(self)@ == old(self)@.push(e),
    {
        let ghost old_rows = self.rows@;
        proof {
            assert(old_rows.push(e).drop_last() =~= old_rows);
        }
        match e {
            Some(v) => {
                self.values.push(v);
            },
            None => {},
        }
        if self.nullable {
            let d: i16 = if e.is_some() { 1 } else { 0 };
            self.def_levels.push(d);
        }
        self.rows = Ghost(old_rows.push(e));
        proof {
            if self.nullable {
                assert(self.def_levels@ =~= self.rows@.map_values(|e: Option<T>| def_of(e)));
            }
        }
    }

    /// Appends `n` rows that all hold `e`.
    pub fn extend_repeat(&mut self, e: Option<T>, n: usize)
        requires
            old(self).wf(),
            !old(self).is_nullable() ==> e is Some,
        ensures
            final(self).wf(),
            final(self).is_nullable() == old(self).is_nullable(),
            final(self)@ == old(self)@ + Seq::new(n as nat, |i: int| e),
    {
        let ghost start = self@;
        let mut i: usize = 0;
        while i < n
            invariant
                self.wf(),
                self.is_nullable() == old(self).is_nullable(),
                !self.is_nullable() ==> e is Some,
                start == old(self)@,
                i <= n,
                self@ == start + Seq::new(i as nat, |k: int| e),
            decreases n - i,
        {
            self.push(e);
            proof {
                assert(start + Seq::new((i + 1) as nat, |k: int| e) =~= (start + Seq::new(i as nat, |k: int| e)).push(e));
            }
            i += 1;
        }
    }
}

impl<T: Copy> ColumnWriter<T> {
    /// Appends one row for each of `vals`, each present.
    pub fn extend_values(&mut self, vals: &Vec<T>)
        requires
            old(self).wf(),
        ensures
            final(self).wf(),
            final(self).is_nullable() == old(self).is_nullable(),
            final(self)@ == old(self)@ + vals@.map_values(|v: T| Some(v)),
    {
        let ghost start = self@;
        let mut i: usize = 0;
        while i < vals.len()
            invariant
                self.wf(),
                self.is_nullable() == old(self).is_nullable(),
                start == old(self)@,
                i <= vals.len(),
                self@ == start + vals@.take(i as int).map_values(|v: T| Some(v)),
            decreases vals.len() - i,
        {
            self.push(Some(vals[i]));
            proof {
                assert(start + vals@.take(i + 1).map_values(|v: T| Some(v)) =~= (start + vals@.take(i as int).map_values(
                    |v: T| Some(v),
                )).push(Some(vals@[i as int])));
            }
            i += 1;
        }
        proof {
            assert(vals@.take(i as int) =~= vals@);
        }
    }
}

proof fn lemma_all_present<T>(s: Seq<Option<T>>)
    requires
        forall|i: int| 0 <= i < s.len() ==> (#[trigger] s[i]) is Some,
    ensures
        present(s).len() == s.len(),
    decreases s.len(),
{
    if s.len() > 0 {
        assert forall|i: int| 0 <= i < s.drop_last().len() implies (#[trigger] s.drop_last()[i]) is Some by {
            assert(s.drop_last()[i] == s[i]);
        }
        lemma_all_present(s.drop_last());
        assert(s.last() == s[s.len() - 1]);
    }
}


/// One row of the long layout: one measurement point, with the fields of
/// its scan and of the scan's first precursor repeated on it.
#[derive(Clone, Copy, Debug, PartialEq, Eq)]
pub struct LongRow {
    pub scan: u32,
    pub level: u32,
    pub rt: u32,
    pub mz: u32,
    pub intensity: i32,
    pub collision_energy: Option<u32>,
    pub ion_mobility: Option<u32>,
    pub isolation_lower: Option<u32>,
    pub isolation_upper: Option<u32>,
    pub precursor_scan: Option<u32>,
    pub precursor_mz: Option<u32>,
    pub precursor_charge: Option<i32>,
}

/// Values of a scan that the long layout stores and that come from
/// floating-point arithmetic on it: each intensity as an integer, and the
/// absolute bounds of the first precursor's isolation window (its m/z minus
/// the lower offset, plus the upper one).
pub struct ComputedFields {
    pub intensity: Vec<i32>,
    pub isolation_lower: Option<u32>,
    pub isolation_upper: Option<u32>,
}

pub struct ComputedView {
    pub intensity: Seq<i32>,
    pub isolation_lower: Option<u32>,
    pub isolation_upper: Option<u32>,
}

impl View for ComputedFields {
    type V = ComputedView;

    open spec fn view(&self) -> ComputedView {
        ComputedView {
            intensity: self.intensity@,
            isolation_lower: self.isolation_lower,
            isolation_upper: self.isolation_upper,
        }
    }
}

/// The ordinal that a precursor's back-reference resolves to, if it has one
/// and the id was written; absent otherwise.
pub open spec fn resolve(p: PrecursorView, ids: Seq<Seq<u8>>) -> Option<u32> {
    match p.spectrum_ref {
        Some(r) => match lookup(ids, r) {
            Some(k) => Some(k as u32),
            None => None,
        },
        None => None,
    }
}

/// Row `i` of a scan written at `ordinal`, once `ids` holds the ids written
/// so far, its own included. Only the first precursor is represented.
pub open spec fn long_row(s: SpectrumView, c: ComputedView, ordinal: nat, ids: Seq<Seq<u8>>, i: int) -> LongRow {
    let has = s.precursors.len() > 0;
    LongRow {
        scan: ordinal as u32,
        level: s.ms_level as u32,
        rt: s.scan_start_time,
        mz: s.mz[i],
        intensity: c.intensity[i],
        collision_energy: s.collision_energy,
        ion_mobility: s.inverse_ion_mobility,
        isolation_lower: if has { c.isolation_lower } else { None },
        isolation_upper: if has { c.isolation_upper } else { None },
        precursor_scan: if has { resolve(s.precursors[0], ids) } else { None },
        precursor_mz: if has { Some(s.precursors[0].mz) } else { None },
        precursor_charge: if has { s.precursors[0].charge } else { None },
    }
}

/// The rows of one scan: one per measurement point.
pub open spec fn scan_rows(s: SpectrumView, c: ComputedView, ordinal: nat, ids: Seq<Seq<u8>>) -> Seq<LongRow> {
    Seq::new(s.mz.len(), |i: int| long_row(s, c, ordinal, ids, i))
}

/// The twelve columns of the long layout, in schema order: scan, level, rt,
/// mz, intensity, collision_energy, ion_mobility, isolation_lower,
/// isolation_upper, precursor_scan, precursor_mz, precursor_charge. The first
/// five are required, the others nullable.
pub struct LongColumns {
    pub scan: ColumnWriter<u32>,
    pub level: ColumnWriter<u32>,
    pub rt: ColumnWriter<u32>,
    pub mz: ColumnWriter<u32>,
    pub intensity: ColumnWriter<i32>,
    pub collision_energy: ColumnWriter<u32>,
    pub ion_mobility: ColumnWriter<u32>,
    pub isolation_lower: ColumnWriter<u32>,
    pub isolation_upper: ColumnWriter<u32>,
    pub precursor_scan: ColumnWriter<u32>,
    pub precursor_mz: ColumnWriter<u32>,
    pub precursor_charge: ColumnWriter<i32>,
}

impl LongColumns {
    pub open spec fn wf(&self) -> bool {
        &&& self.scan.wf() && !self.scan.is_nullable()
        &&& self.level.wf() && !self.level.is_nullable()
        &&& self.rt.wf() && !self.rt.is_nullable()
        &&& self.mz.wf() && !self.mz.is_nullable()
        &&& self.intensity.wf() && !self.intensity.is_nullable()
        &&& self.collision_energy.wf() && self.collision_energy.is_nullable()
        &&& self.ion_mobility.wf() && self.ion_mobility.is_nullable()
        &&& self.isolation_lower.wf() && self.isolation_lower.is_nullable()
        &&& self.isolation_upper.wf() && self.isolation_upper.is_nullable()
        &&& self.precursor_scan.wf() && self.precursor_scan.is_nullable()
        &&& self.precursor_mz.wf() && self.precursor_mz.is_nullable()
        &&& self.precursor_charge.wf() && self.precursor_charge.is_nullable()
        &&& self.level@.len() == self.scan@.len()
        &&& self.rt@.len() == self.scan@.len()
        &&& self.mz@.len() == self.scan@.len()
        &&& self.intensity@.len() == self.scan@.len()
        &&& self.collision_energy@.len() == self.scan@.len()
        &&& self.ion_mobility@.len() == self.scan@.len()
        &&& self.isolation_lower@.len() == self.scan@.len()
        &&& self.isolation_upper@.len() == self.scan@.len()
        &&& self.precursor_scan@.len() == self.scan@.len()
        &&& self.precursor_mz@.len() == self.scan@.len()
        &&& self.precursor_charge@.len() == self.scan@.len()
    }

    /// The rows that the columns hold, read across.
    pub open spec fn rows(&self) -> Seq<LongRow> {
        Seq::new(
            self.scan@.len(),
            |i: int|
                LongRow {
                    scan: self.scan@[i]->Some_0,
                    level: self.level@[i]->Some_0,
                    rt: self.rt@[i]->Some_0,
                    mz: self.mz@[i]->Some_0,
                    intensity: self.intensity@[i]->Some_0,
                    collision_energy: self.collision_energy@[i],
                    ion_mobility: self.ion_mobility@[i],
                    isolation_lower: self.isolation_lower@[i],
                    isolation_upper: self.isolation_upper@[i],
                    precursor_scan: self.precursor_scan@[i],
                    precursor_mz: self.precursor_mz@[i],
                    precursor_charge: self.precursor_charge@[i],
                },
        )
    }

    /// Empty columns.
    pub fn new() -> (r: LongColumns)
        ensures
            r.wf(),
            r.rows() == Seq::<LongRow>::empty(),
    {
        let r = LongColumns {
            scan: ColumnWriter::new(false),
            level: ColumnWriter::new(false),
            rt: ColumnWriter::new(false),
            mz: ColumnWriter::new(false),
            intensity: ColumnWriter::new(false),
            collision_energy: ColumnWriter::new(true),
            ion_mobility: ColumnWriter::new(true),
            isolation_lower: ColumnWriter::new(true),
            isolation_upper: ColumnWriter::new(true),
            precursor_scan: ColumnWriter::new(true),
            precursor_mz: ColumnWriter::new(true),
            precursor_charge: ColumnWriter::new(true),
        };
        proof {
            assert(r.rows() =~= Seq::<LongRow>::empty());
        }
        r
    }

    /// Number of rows.
    pub fn len(&self) -> (r: usize)
        requires
            self.wf(),
        ensures
            r == self.rows().len(),
    {
        self.scan.len()
    }
}


/// The precursor that the long layout represents: a scan's first one.
pub fn primary_precursor(spectrum: &RawSpectrum) -> (r: Option<&crate::model::Precursor>)
    ensures
        spectrum.precursors.len() == 0 ==> r is None,
        spectrum.precursors.len() > 0 ==> r == Some(&spectrum.precursors@[0]),
{
    if spectrum.precursors.len() == 0 {
        None
    } else {
        Some(&spectrum.precursors[0])
    }
}

/// Why a scan could not be written.
#[derive(Debug, Clone, Copy, PartialEq, Eq)]
pub enum WriteError {
    /// The m/z list, the intensity list and the integer intensities are not
    /// all of one length.
    LengthMismatch,
    /// The scan's ordinal would reach `u32::MAX`.
    TooManyScans,
    /// The buffered row count does not fit in a machine word.
    TooManyRows,
}

/// Appends the rows of one scan to every column, in lock-step.
fn append_scan(
    cols: &mut LongColumns,
    spectrum: &RawSpectrum,
    computed: &ComputedFields,
    ordinal: u32,
    pscan: Option<u32>,
    Ghost(ids): Ghost<Seq<Seq<u8>>>,
)
    requires
        old(cols).wf(),
        spectrum.mz.len() == computed.intensity.len(),
        spectrum.precursors.len() > 0 ==> pscan == resolve(spectrum.precursors@[0]@, ids),
    ensures
        final(cols).wf(),
        final(cols).rows() == old(cols).rows() + scan_rows(spectrum@, computed@, ordinal as nat, ids),
{
    let n = spectrum.mz.len();
    let ghost before = cols.rows();
    let ghost sv = spectrum@;
    let ghost cv = computed@;
    cols.scan.extend_repeat(Some(ordinal), n);
    cols.level.extend_repeat(Some(spectrum.ms_level as u32), n);
    cols.rt.extend_repeat(Some(spectrum.scan_start_time), n);
    cols.mz.extend_values(&spectrum.mz);
    cols.intensity.extend_values(&computed.intensity);
    cols.collision_energy.extend_repeat(spectrum.collision_energy, n);
    cols.ion_mobility.extend_repeat(spectrum.inverse_ion_mobility, n);
    let (lo, hi, pmz, pz, ps) = match primary_precursor(spectrum) {
        Some(p) => (computed.isolation_lower, computed.isolation_upper, Some(p.mz), p.charge, pscan),
        None => (None, None, None, None, None),
    };
    cols.isolation_lower.extend_repeat(lo, n);
    cols.isolation_upper.extend_repeat(hi, n);
    cols.precursor_scan.extend_repeat(ps, n);
    cols.precursor_mz.extend_repeat(pmz, n);
    cols.precursor_charge.extend_repeat(pz, n);
    proof {
        let added = scan_rows(sv, cv, ordinal as nat, ids);
        let m = before.len();
        assert(sv.precursors.len() > 0 ==> sv.precursors[0] == spectrum.precursors@[0]@);
        assert forall|i: int| 0 <= i < cols.rows().len() implies cols.rows()[i] == (before + added)[i] by {
            if i >= m {
                let j = i - m;
                assert(cols.mz@[i] == Some(spectrum.mz@[j]));
                assert(cols.intensity@[i] == Some(computed.intensity@[j]));
            }
        }
        assert(cols.rows() =~= before + added);
    }
}

/// The long-layout writer of one conversion: the index of scan ids, the
/// buffered columns of the row group in progress, and the flush threshold
/// on buffered measurement points.
pub struct ChunkWriter {
    threshold: usize,
    current_rows: usize,
    scans_written: usize,
    index: ScanIndex,
    columns: LongColumns,
}

/// Default flush threshold: 2^18 buffered measurement points.
pub const ROW_GROUP_POINTS: usize = 262144;

impl ChunkWriter {
    pub closed spec fn wf(&self) -> bool {
        &&& self.columns.wf()
        &&& self.current_rows == self.columns.rows().len()
        &&& self.scans_written == self.index@.len()
        &&& 0 < self.threshold
        &&& self.current_rows < self.threshold
    }

    /// The rows buffered since the last flush.
    pub closed spec fn pending(&self) -> Seq<LongRow> {
        self.columns.rows()
    }

    /// The ids of the scans written so far, in write order.
    pub closed spec fn ids(&self) -> Seq<Seq<u8>> {
        self.index@
    }

    pub closed spec fn threshold(&self) -> nat {
        self.threshold as nat
    }

    /// A writer that flushes a row group once `threshold` measurement points
    /// are buffered.
    pub fn new(threshold: usize) -> (r: ChunkWriter)
        requires
            threshold > 0,
        ensures
            r.wf(),
            r.pending() == Seq::<LongRow>::empty(),
            r.ids() == Seq::<Seq<u8>>::empty(),
            r.threshold() == threshold,
    {
        ChunkWriter {
            threshold,
            current_rows: 0,
            scans_written: 0,
            index: ScanIndex::new(),
            columns: LongColumns::new(),
        }
    }

    /// Writes one scan: records its id at the next ordinal, then appends one
    /// row per measurement point to every column, with the first precursor's
    /// back-reference resolved through the ids written so far (its own
    /// included). Hands back the buffered row group once the buffered points
    /// reach the threshold. Fails, changing nothing, when the lengths of the
    /// scan's lists differ or a count outgrows its type.
    pub fn write_spectrum(&mut self, spectrum: &RawSpectrum, computed: &ComputedFields) -> (r: Result<Option<LongColumns>, WriteError>)
        requires
            old(self).wf(),
        ensures
            final(self).wf(),
            final(self).threshold() == old(self).threshold(),
            (r == Err::<Option<LongColumns>, WriteError>(WriteError::LengthMismatch)) <==> (spectrum.mz.len()
                != spectrum.intensity.len() || spectrum.mz.len() != computed.intensity.len()),
            r is Err ==> final(self).pending() == old(self).pending() && final(self).ids() == old(self).ids(),
            r == Err::<Option<LongColumns>, WriteError>(WriteError::TooManyScans) <==> (spectrum.mz.len()
                == spectrum.intensity.len() && spectrum.mz.len() == computed.intensity.len() && old(self).ids().len()
                >= u32::MAX),
            r == Err::<Option<LongColumns>, WriteError>(WriteError::TooManyRows) ==> old(self).pending().len()
                + spectrum.mz.len() > usize::MAX,
            r is Ok ==> final(self).ids() == old(self).ids().push(spectrum.id@),
            r matches Ok(g) ==> {
                let all = old(self).pending() + scan_rows(
                    spectrum@,
                    computed@,
                    old(self).ids().len(),
                    old(self).ids().push(spectrum.id@),
                );
                if all.len() >= old(self).threshold() {
                    (g matches Some(g) && g.wf() && g.rows() == all) && final(self).pending() == Seq::<LongRow>::empty()
                } else {
                    g is None && final(self).pending() == all
                }
            },
    {
        let n = spectrum.mz.len();
        if n != spectrum.intensity.len() || n != computed.intensity.len() {
            return Err(WriteError::LengthMismatch);
        }
        if self.scans_written >= u32::MAX as usize {
            return Err(WriteError::TooManyScans);
        }
        if n > usize::MAX - self.current_rows {
            return Err(WriteError::TooManyRows);
        }
        let ordinal = self.scans_written as u32;
        self.index.insert(&spectrum.id);
        let ghost ids = self.index@;
        let pscan = match primary_precursor(spectrum) {
            Some(p) => match &p.spectrum_ref {
                Some(r) => match self.index.get(r) {
                    Some(k) => {
                        proof {
                            lemma_lookup_bound(ids, r@);
                        }
                        Some(k as u32)
                    },
                    None => None,
                },
                None => None,
            },
            None => None,
        };
        append_scan(&mut self.columns, spectrum, computed, ordinal, pscan, Ghost(ids));
        self.scans_written = self.scans_written + 1;
        self.current_rows = self.current_rows + n;
        if self.current_rows >= self.threshold {
            let mut group = LongColumns::new();
            std::mem::swap(&mut group, &mut self.columns);
            self.current_rows = 0;
            Ok(Some(group))
        } else {
            Ok(None)
        }
    }

    /// Ends the conversion: hands back the last, possibly undersized, row
    /// group if any points are buffered.
    pub fn finish(self) -> (r: Option<LongColumns>)
        requires
            self.wf(),
        ensures
            self.pending().len() == 0 ==> r is None,
            self.pending().len() > 0 ==> (r matches Some(g) && g.wf() && g.rows() == self.pending()),
    {
        if self.current_rows > 0 {
            Some(self.columns)
        } else {
            None
        }
    }
}


/// The ids of the first `k` scans.
pub open spec fn ids_upto(specs: Seq<SpectrumView>, k: int) -> Seq<Seq<u8>> {
    specs.take(k).map_values(|s: SpectrumView| s.id)
}

/// The rows of scan `k` of a conversion.
pub open spec fn rows_of_scan(specs: Seq<SpectrumView>, comps: Seq<ComputedView>, k: int) -> Seq<LongRow> {
    scan_rows(specs[k], comps[k], k as nat, ids_upto(specs, k + 1))
}

/// The long layout of the first `k` scans: their rows, scan after scan.
pub open spec fn long_rows_upto(specs: Seq<SpectrumView>, comps: Seq<ComputedView>, k: int) -> Seq<LongRow> {
    Seq::new(k as nat, |j: int| rows_of_scan(specs, comps, j)).flatten()
}

pub open spec fn long_rows(specs: Seq<SpectrumView>, comps: Seq<ComputedView>) -> Seq<LongRow> {
    long_rows_upto(specs, comps, specs.len() as int)
}

/// The flushed row groups and the buffered rows after the first `k` scans:
/// each scan's rows join the buffer, which is flushed as a row group as soon
/// as it holds at least `t` rows.
pub open spec fn chunk_state(specs: Seq<SpectrumView>, comps: Seq<ComputedView>, t: nat, k: nat) -> (Seq<Seq<LongRow>>, Seq<LongRow>)
    decreases k,
{
    if k == 0 {
        (Seq::empty(), Seq::empty())
    } else {
        let (g, p) = chunk_state(specs, comps, t, (k - 1) as nat);
        let all = p + rows_of_scan(specs, comps, k - 1);
        if all.len() >= t {
            (g.push(all), Seq::empty())
        } else {
            (g, all)
        }
    }
}

/// The row groups of a whole conversion: the flushed ones, then the last
/// buffer if it holds any rows.
pub open spec fn long_row_groups(specs: Seq<SpectrumView>, comps: Seq<ComputedView>, t: nat) -> Seq<Seq<LongRow>> {
    let (g, p) = chunk_state(specs, comps, t, specs.len());
    if p.len() > 0 { g.push(p) } else { g }
}

pub open spec fn computed_view(c: Vec<ComputedFields>) -> Seq<ComputedView> {
    c@.map_values(|x: ComputedFields| x@)
}

pub open spec fn lengths_agree(s: SpectrumView, c: ComputedView) -> bool {
    s.mz.len() == s.intensity.len() && s.mz.len() == c.intensity.len()
}

pub open spec fn groups_view(g: Vec<LongColumns>) -> Seq<Seq<LongRow>> {
    g@.map_values(|c: LongColumns| c.rows())
}

proof fn lemma_long_rows_step(specs: Seq<SpectrumView>, comps: Seq<ComputedView>, k: int)
    requires
        0 <= k,
    ensures
        long_rows_upto(specs, comps, k + 1) == long_rows_upto(specs, comps, k) + rows_of_scan(specs, comps, k),
{
    let a = Seq::new(k as nat, |j: int| rows_of_scan(specs, comps, j));
    assert(Seq::new((k + 1) as nat, |j: int| rows_of_scan(specs, comps, j)) =~= a.push(rows_of_scan(specs, comps, k)));
    a.lemma_flatten_push(rows_of_scan(specs, comps, k));
}

/// What the writer holds after `k` scans: the flushed groups and the buffer
/// together are the rows of those scans, every flushed group has at least `t`
/// rows, and the buffer fewer.
pub proof fn lemma_chunk_state(specs: Seq<SpectrumView>, comps: Seq<ComputedView>, t: nat, k: nat)
    requires
        t > 0,
    ensures
        chunk_state(specs, comps, t, k).0.flatten() + chunk_state(specs, comps, t, k).1 == long_rows_upto(specs, comps, k as int),
        chunk_state(specs, comps, t, k).1.len() < t,
        forall|i: int| 0 <= i < chunk_state(specs, comps, t, k).0.len() ==> (#[trigger] chunk_state(specs, comps, t, k).0[i]).len() >= t,
        chunk_state(specs, comps, t, k).0.len() == 0 ==> chunk_state(specs, comps, t, k).1 == long_rows_upto(specs, comps, k as int),
    decreases k,
{
    if k == 0 {
        assert(Seq::new(0, |j: int| rows_of_scan(specs, comps, j)) =~= Seq::<Seq<LongRow>>::empty());
        assert(Seq::<Seq<LongRow>>::empty().flatten() =~= Seq::<LongRow>::empty());
    } else {
        lemma_chunk_state(specs, comps, t, (k - 1) as nat);
        lemma_long_rows_step(specs, comps, k - 1);
        let (g, p) = chunk_state(specs, comps, t, (k - 1) as nat);
        let all = p + rows_of_scan(specs, comps, k - 1);
        if all.len() >= t {
            g.lemma_flatten_push(all);
            assert(g.push(all).flatten() + Seq::<LongRow>::empty() =~= g.flatten() + all);
        } else {
            assert(g.flatten() + all =~= g.flatten() + p + rows_of_scan(specs, comps, k - 1));
        }
    }
}

/// Row groups lose nothing and reorder nothing: read one after another,
/// the row groups of a conversion are exactly its rows. Every row group but
/// the last holds at least the threshold's number of rows.
pub proof fn lemma_row_groups_concat(specs: Seq<SpectrumView>, comps: Seq<ComputedView>, t: nat)
    requires
        t > 0,
    ensures
        long_row_groups(specs, comps, t).flatten() == long_rows(specs, comps),
        forall|i: int| 0 <= i < long_row_groups(specs, comps, t).len() - 1 ==> (#[trigger] long_row_groups(specs, comps, t)[i]).len() >= t,
        forall|i: int| 0 <= i < long_row_groups(specs, comps, t).len() ==> (#[trigger] long_row_groups(specs, comps, t)[i]).len() > 0,
{
    let n = specs.len();
    lemma_chunk_state(specs, comps, t, n);
    let (g, p) = chunk_state(specs, comps, t, n);
    if p.len() > 0 {
        g.lemma_flatten_push(p);
    } else {
        assert(g.flatten() + p =~= g.flatten());
    }
}

/// A conversion whose scans before the last already hold at least the
/// threshold's number of points, and whose last scan has points, is written
/// as more than one row group.
pub proof fn lemma_row_groups_split(specs: Seq<SpectrumView>, comps: Seq<ComputedView>, t: nat)
    requires
        t > 0,
        specs.len() > 0,
        long_rows_upto(specs, comps, specs.len() - 1).len() >= t,
        rows_of_scan(specs, comps, specs.len() - 1).len() > 0,
    ensures
        long_row_groups(specs, comps, t).len() >= 2,
{
    let n = specs.len();
    lemma_chunk_state(specs, comps, t, (n - 1) as nat);
    lemma_chunk_state(specs, comps, t, n);
    let (g, p) = chunk_state(specs, comps, t, (n - 1) as nat);
    assert(g.len() >= 1);
}

/// Writes a whole conversion in the long layout: each scan in order through
/// one [`ChunkWriter`] with flush threshold `threshold`, then the last
/// buffer. `computed[k]` holds the values that come from floating-point
/// arithmetic on scan `k`.
pub fn serialize_long(spectra: &Vec<RawSpectrum>, computed: &Vec<ComputedFields>, threshold: usize) -> (r: Result<Vec<LongColumns>, WriteError>)
    requires
        threshold > 0,
        computed.len() == spectra.len(),
    ensures
        r matches Ok(groups) ==> groups_view(groups) == long_row_groups(spectra_view(*spectra), computed_view(*computed), threshold as nat)
            && forall|i: int| 0 <= i < groups.len() ==> (#[trigger] groups@[i]).wf(),
        r == Err::<Vec<LongColumns>, WriteError>(WriteError::LengthMismatch) ==> exists|k: int| 0 <= k < spectra.len()
            && !lengths_agree(#[trigger] spectra_view(*spectra)[k], computed_view(*computed)[k]),
        (exists|k: int| 0 <= k < spectra.len() && !lengths_agree(#[trigger] spectra_view(*spectra)[k], computed_view(*computed)[k]))
            ==> r is Err,
        (forall|k: int| 0 <= k < spectra.len() ==> lengths_agree(#[trigger] spectra_view(*spectra)[k], computed_view(*computed)[k]))
            && spectra.len() < u32::MAX && long_rows(spectra_view(*spectra), computed_view(*computed)).len() <= usize::MAX ==> r is Ok,
{
    let ghost specs = spectra_view(*spectra);
    let ghost comps = computed_view(*computed);
    let ghost t = threshold as nat;
    let mut w = ChunkWriter::new(threshold);
    let mut groups: Vec<LongColumns> = Vec::new();
    let mut k: usize = 0;
    proof {
        assert(ids_upto(specs, 0) =~= Seq::<Seq<u8>>::empty());
        assert(groups_view(groups) =~= Seq::<Seq<LongRow>>::empty());
    }
    while k < spectra.len()
        invariant
            specs == spectra_view(*spectra),
            comps == computed_view(*computed),
            computed.len() == spectra.len(),
            t == threshold as nat,
            t > 0,
            k <= spectra.len(),
            w.wf(),
            w.threshold() == t,
            w.ids() == ids_upto(specs, k as int),
            w.pending() == chunk_state(specs, comps, t, k as nat).1,
            groups_view(groups) == chunk_state(specs, comps, t, k as nat).0,
            forall|i: int| 0 <= i < groups.len() ==> (#[trigger] groups@[i]).wf(),
            forall|j: int| 0 <= j < k ==> lengths_agree(#[trigger] specs[j], comps[j]),
        decreases spectra.len() - k,
    {
        proof {
            assert(specs[k as int] == spectra@[k as int]@);
            assert(comps[k as int] == computed@[k as int]@);
            lemma_chunk_state(specs, comps, t, k as nat);
        }
        let ghost old_pending = w.pending();
        match w.write_spectrum(&spectra[k], &computed[k]) {
            Ok(g) => {
                proof {
                    assert(ids_upto(specs, k + 1) =~= ids_upto(specs, k as int).push(specs[k as int].id));
                }
                match g {
                    Some(g) => {
                        let ghost old_g = groups_view(groups);
                        let ghost gr = g.rows();
                        groups.push(g);
                        proof {
                            assert(groups_view(groups) =~= old_g.push(gr));
                        }
                    },
                    None => {},
                }
            },
            Err(e) => {
                proof {
                    if e == WriteError::LengthMismatch {
                        assert(!lengths_agree(specs[k as int], comps[k as int]));
                    } else {
                        if (forall|j: int| 0 <= j < spectra.len() ==> lengths_agree(#[trigger] specs[j], comps[j]))
                            && spectra.len() < u32::MAX && long_rows(specs, comps).len() <= usize::MAX {
                            assert(lengths_agree(specs[k as int], comps[k as int]));
                            assert(ids_upto(specs, k as int).len() == k);
                            assert(e != WriteError::TooManyScans);
                            // the buffered rows and this scan's are a part of all rows
                            lemma_chunk_state(specs, comps, t, k as nat);
                            lemma_long_rows_step(specs, comps, k as int);
                            lemma_long_rows_prefix(specs, comps, k + 1, specs.len() as int);
                            let gs = chunk_state(specs, comps, t, k as nat).0;
                            assert(gs.flatten().len() + old_pending.len() + rows_of_scan(specs, comps, k as int).len()
                                <= long_rows(specs, comps).len());
                            assert(rows_of_scan(specs, comps, k as int).len() == spectra@[k as int].mz.len());
                            assert(false);
                        }
                    }
                }
                return Err(e);
            },
        }
        k += 1;
    }
    match w.finish() {
        Some(g) => {
            let ghost old_g = groups_view(groups);
            let ghost gr = g.rows();
            groups.push(g);
            proof {
                assert(groups_view(groups) =~= old_g.push(gr));
            }
        },
        None => {},
    }
    Ok(groups)
}

/// Converting the same input twice gives the same output: the wide columns,
/// and the long layout's row groups at a given threshold, are functions of
/// the scans (and of the values computed from them) alone.
pub proof fn lemma_conversion_deterministic(
    s1: Seq<SpectrumView>,
    s2: Seq<SpectrumView>,
    c1: Seq<ComputedView>,
    c2: Seq<ComputedView>,
    t: nat,
)
    requires
        s1 == s2,
        c1 == c2,
    ensures
        crate::wide::wide_columns(s1) == crate::wide::wide_columns(s2),
        long_row_groups(s1, c1, t) == long_row_groups(s2, c2, t),
{
}

/// The rows of fewer scans are a prefix of the rows of more.
proof fn lemma_long_rows_prefix(specs: Seq<SpectrumView>, comps: Seq<ComputedView>, a: int, b: int)
    requires
        0 <= a <= b,
    ensures
        long_rows_upto(specs, comps, a).len() <= long_rows_upto(specs, comps, b).len(),
    decreases b - a,
{
    if a < b {
        lemma_long_rows_prefix(specs, comps, a, b - 1);
        lemma_long_rows_step(specs, comps, b - 1);
    }
}

} // verus!
