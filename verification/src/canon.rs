use crate::encode::{
    bin_magic, encode_binary_sample, encode_text_record, labels_fit, magic_bytes, sample_block,
    text_record,
};
use crate::keys::{parse_key, parse_key_spec};
use crate::shape::{
    index_of_nodes, index_wf, lemma_lookup_precinct_at, lemma_lookup_precinct_missing,
    lemma_lookup_region_at, lemma_lookup_region_missing, lookup_precinct, lookup_region,
    read_shape, topology_nodes_of, total_count, ShapeIndex,
};
use vstd::prelude::*;

verus! {

/// An error that aborts the whole run.
#[derive(Clone, Copy, Debug, PartialEq, Eq, Structural)]
pub enum FatalError {
    /// The topology document is not valid JSON.
    TopologyParse,
    /// A sample line is not valid JSON.
    LineParse,
    /// A composite key names a region the shape index does not hold.
    UnknownRegion,
    /// A composite key names a precinct its region does not hold.
    UnknownPrecinct,
    /// An entry whose key resolved carries a non-integer label.
    LabelNotInteger,
    /// A flat index of the topology document falls outside the vector.
    IndexOutOfRange,
    /// A district label does not fit the binary encoding's fixed width.
    LabelTooLarge,
}

/// One (composite key, district label) entry of a sample record; the label
/// is absent when the record holds it with a non-integer type.
pub struct RawEntry {
    pub key: String,
    pub label: Option<u64>,
}

impl DeepView for RawEntry {
    type V = (Seq<char>, Option<u64>);

    open spec fn deep_view(&self) -> (Seq<char>, Option<u64>) {
        (self.key@, self.label)
    }
}

/// The shape of one line of the sample stream.
pub enum SampleShape {
    /// The line is not valid JSON.
    Malformed,
    /// The line has no `districting` array.
    NoAssignments,
    /// The entries of the line's `districting` array, flattened in order.
    Entries(Vec<RawEntry>),
}

/// The plain-value shape of a parsed sample line.
pub open spec fn shape_view(s: &SampleShape) -> Option<Option<Seq<(Seq<char>, Option<u64>)>>> {
    match s {
        SampleShape::Malformed => None,
        SampleShape::NoAssignments => Some(None),
        SampleShape::Entries(v) => Some(Some(v.deep_view())),
    }
}

/// What serde_json parsing of one sample line yields, as plain values:
/// nothing when the line is not valid JSON; an absent inner value when the
/// top-level `districting` array is missing; else the (key, label) pairs of
/// the array's objects, flattened in order, labels absent where non-integer.
pub uninterp spec fn sample_line_shape_of(line: Seq<char>) -> Option<
    Option<Seq<(Seq<char>, Option<u64>)>>,
>;

/// Relies on serde_json::from_str and the Value accessors get, as_array,
/// as_object and as_u64: classifies the line as malformed JSON, as lacking a
/// top-level `districting` array, or as the flattened (key, label) entries
/// of that array's objects in document order (serde_json's default map holds
/// its keys sorted), with each non-integer label left absent.
#[verifier::external_body]
fn parse_sample_line(line: &str) -> (r: SampleShape)
    ensures
        shape_view(&r) == sample_line_shape_of(line@),
{
    let data: serde_json::Value = match serde_json::from_str(line) {
        Ok(v) => v,
        Err(_) => return SampleShape::Malformed,
    };
    let arr = match data.get("districting").and_then(|d| d.as_array()) {
        Some(a) => a,
        None => return SampleShape::NoAssignments,
    };
    let mut entries = Vec::new();
    for obj in arr.iter().filter_map(|item| item.as_object()) {
        entries.extend(obj.iter().map(|(k, v)| RawEntry { key: k.clone(), label: v.as_u64() }));
    }
    SampleShape::Entries(entries)
}

/// The all-default assignment vector.
pub open spec fn zero_vector(n: nat) -> Seq<u64> {
    Seq::new(n, |i: int| 0u64)
}

/// Whether some precinct of the list carries flat index `j`.
pub open spec fn region_covers(ps: Seq<(Seq<char>, u64)>, j: int) -> bool {
    exists|k: int| 0 <= k < ps.len() && ps[k].1 as int == j
}

/// Whether some precinct among the first `upto` carries flat index `j`.
pub open spec fn region_covers_upto(ps: Seq<(Seq<char>, u64)>, upto: int, j: int) -> bool {
    exists|k: int| 0 <= k < upto && k < ps.len() && ps[k].1 as int == j
}

/// Whether every flat index of the list falls inside a vector of length `n`.
pub open spec fn ids_in_range(ps: Seq<(Seq<char>, u64)>, n: nat) -> bool {
    forall|k: int| 0 <= k < ps.len() ==> (ps[k].1 as nat) < n
}

/// The vector after a broadcast write: every slot some precinct of the list
/// covers holds the label, all others are unchanged.
pub open spec fn broadcast_write(v: Seq<u64>, ps: Seq<(Seq<char>, u64)>, label: u64) -> Seq<u64> {
    Seq::new(v.len(), |j: int| if region_covers(ps, j) { label } else { v[j] })
}

/// The effect of one sample entry on the assignment vector. A one-component
/// key broadcasts over its region, a two-component key writes one slot, any
/// other component count leaves the vector unchanged; unknown names, labels
/// of a non-integer type and out-of-range flat indices are fatal.
pub open spec fn apply_entry(
    ixv: Seq<(Seq<char>, Seq<(Seq<char>, u64)>)>,
    v: Seq<u64>,
    key: Seq<char>,
    label: Option<u64>,
) -> Result<Seq<u64>, FatalError> {
    let parts = parse_key_spec(key);
    if parts.len() == 1 {
        match lookup_region(ixv, parts[0]) {
            None => Err(FatalError::UnknownRegion),
            Some(ps) => if ps.len() == 0 {
                Ok(v)
            } else {
                match label {
                    None => Err(FatalError::LabelNotInteger),
                    Some(l) => if !ids_in_range(ps, v.len()) {
                        Err(FatalError::IndexOutOfRange)
                    } else {
                        Ok(broadcast_write(v, ps, l))
                    },
                }
            },
        }
    } else if parts.len() == 2 {
        match lookup_region(ixv, parts[0]) {
            None => Err(FatalError::UnknownRegion),
            Some(ps) => match lookup_precinct(ps, parts[1]) {
                None => Err(FatalError::UnknownPrecinct),
                Some(id) => match label {
                    None => Err(FatalError::LabelNotInteger),
                    Some(l) => if (id as nat) >= v.len() {
                        Err(FatalError::IndexOutOfRange)
                    } else {
                        Ok(v.update(id as int, l))
                    },
                },
            },
        }
    } else {
        Ok(v)
    }
}

/// The vector after the sample's entries, applied in record order; the first
/// fatal entry aborts.
pub open spec fn apply_entries(
    ixv: Seq<(Seq<char>, Seq<(Seq<char>, u64)>)>,
    v: Seq<u64>,
    es: Seq<(Seq<char>, Option<u64>)>,
) -> Result<Seq<u64>, FatalError>
    decreases es.len(),
{
    if es.len() == 0 {
        Ok(v)
    } else {
        match apply_entry(ixv, v, es[0].0, es[0].1) {
            Err(e) => Err(e),
            Ok(v2) => apply_entries(ixv, v2, es.skip(1)),
        }
    }
}

/// The assignment vector of one sample: the entries applied to the
/// all-default vector of the index's total precinct count.
pub open spec fn sample_vector(
    ixv: Seq<(Seq<char>, Seq<(Seq<char>, u64)>)>,
    es: Seq<(Seq<char>, Option<u64>)>,
) -> Result<Seq<u64>, FatalError> {
    apply_entries(ixv, zero_vector(total_count(ixv)), es)
}

/// Applies one entry to the assignment vector; on a fatal entry the vector
/// is left untouched.
#[verifier::loop_isolation(false)]
pub fn apply_entry_exec(ix: &ShapeIndex, v: &mut Vec<u64>, key: &str, label: &Option<u64>) -> (r:
    Result<(), FatalError>)
    ensures
        match r {
            Ok(_) => apply_entry(ix@, old(v)@, key@, *label) == Ok::<Seq<u64>, FatalError>(
                final(v)@,
            ),
            Err(e) => apply_entry(ix@, old(v)@, key@, *label) == Err::<Seq<u64>, FatalError>(e)
                && final(v)@ == old(v)@,
        },
{
    let parts = parse_key(key);
    let ghost pv = parts.deep_view();
    if parts.len() == 1 {
        match ix.find_region(&parts[0]) {
            None => {
                proof {
                    assert(pv[0] == parts@[0]@);
                    lemma_lookup_region_missing(ix@, pv[0]);
                }
                Err(FatalError::UnknownRegion)
            },
            Some(k) => {
                proof {
                    assert(pv[0] == parts@[0]@);
                    lemma_lookup_region_at(ix@, pv[0], k as int);
                }
                let ps = &ix.regions[k].precincts;
                let ghost psv = ps.deep_view();
                proof {
                    assert(ix@[k as int].1 == psv);
                }
                if ps.len() == 0 {
                    return Ok(());
                }
                match label {
                    None => Err(FatalError::LabelNotInteger),
                    Some(l) => {
                        let l: u64 = *l;
                        let n = v.len();
                        let mut c: usize = 0;
                        while c < ps.len()
                            invariant
                                c <= psv.len(),
                                psv.len() == ps@.len(),
                                n == v@.len(),
                                forall|k2: int| 0 <= k2 < c ==> (psv[k2].1 as nat) < n,
                            decreases ps.len() - c,
                        {
                            proof {
                                assert(psv[c as int] == (ps@[c as int].name@, ps@[c as int].id));
                            }
                            if ps[c].id >= n as u64 {
                                proof {
                                    assert(!ids_in_range(psv, v@.len()));
                                }
                                return Err(FatalError::IndexOutOfRange);
                            }
                            c = c + 1;
                        }
                        proof {
                            assert(ids_in_range(psv, v@.len()));
                        }
                        let mut w: usize = 0;
                        while w < ps.len()
                            invariant
                                w <= psv.len(),
                                psv.len() == ps@.len(),
                                ids_in_range(psv, old(v)@.len()),
                                v@.len() == old(v)@.len(),
                                forall|j: int|
                                    0 <= j < v@.len() ==> v@[j] == (if region_covers_upto(
                                        psv,
                                        w as int,
                                        j,
                                    ) {
                                        l
                                    } else {
                                        old(v)@[j]
                                    }),
                            decreases ps.len() - w,
                        {
                            proof {
                                assert(psv[w as int] == (ps@[w as int].name@, ps@[w as int].id));
                            }
                            let idx: usize = ps[w].id as usize;
                            v[idx] = l;
                            proof {
                                let ghost wi = w as int;
                                assert forall|j: int| 0 <= j < v@.len() implies v@[j] == (
                                if region_covers_upto(psv, wi + 1, j) {
                                    l
                                } else {
                                    old(v)@[j]
                                }) by {
                                    if j == idx as int {
                                        assert(0 <= wi < wi + 1 && wi < psv.len() && psv[wi].1
                                            as int == j);
                                        assert(region_covers_upto(psv, wi + 1, j));
                                    } else {
                                        if region_covers_upto(psv, wi + 1, j) {
                                            let k2 = choose|k2: int|
                                                0 <= k2 < wi + 1 && k2 < psv.len() && psv[k2].1
                                                    as int == j;
                                            assert(k2 < wi);
                                            assert(region_covers_upto(psv, wi, j));
                                        }
                                    }
                                }
                            }
                            w = w + 1;
                        }
                        proof {
                            assert forall|j: int| 0 <= j < v@.len() implies region_covers_upto(
                                psv,
                                psv.len() as int,
                                j,
                            ) == region_covers(psv, j) by {}
                            assert(v@ =~= broadcast_write(old(v)@, psv, l));
                        }
                        Ok(())
                    },
                }
            },
        }
    } else if parts.len() == 2 {
        match ix.find_region(&parts[0]) {
            None => {
                proof {
                    assert(pv[0] == parts@[0]@);
                    lemma_lookup_region_missing(ix@, pv[0]);
                }
                Err(FatalError::UnknownRegion)
            },
            Some(k) => {
                proof {
                    assert(pv[0] == parts@[0]@);
                    assert(pv[1] == parts@[1]@);
                    lemma_lookup_region_at(ix@, pv[0], k as int);
                }
                let ps = &ix.regions[k].precincts;
                let ghost psv = ps.deep_view();
                proof {
                    assert(ix@[k as int].1 == psv);
                }
                match crate::shape::find_precinct(ps, &parts[1]) {
                    None => {
                        proof {
                            lemma_lookup_precinct_missing(psv, pv[1]);
                        }
                        Err(FatalError::UnknownPrecinct)
                    },
                    Some(t) => {
                        proof {
                            lemma_lookup_precinct_at(psv, pv[1], t as int);
                        }
                        match label {
                            None => Err(FatalError::LabelNotInteger),
                            Some(l) => {
                                let l: u64 = *l;
                                let id: u64 = ps[t].id;
                                proof {
                                    assert(psv[t as int] == (ps@[t as int].name@, ps@[t as int].id));
                                }
                                if id >= v.len() as u64 {
                                    return Err(FatalError::IndexOutOfRange);
                                }
                                let idx: usize = id as usize;
                                v[idx] = l;
                                Ok(())
                            },
                        }
                    },
                }
            },
        }
    } else {
        Ok(())
    }
}

/// Builds one sample's dense assignment vector: a fresh all-default vector
/// of the index's total precinct count, with the entries applied in record
/// order; the first fatal entry aborts the sample.
#[verifier::loop_isolation(false)]
pub fn canonicalize_sample(ix: &ShapeIndex, entries: &Vec<RawEntry>) -> (r: Result<
    Vec<u64>,
    FatalError,
>)
    requires
        total_count(ix@) <= usize::MAX,
    ensures
        match r {
            Ok(v) => sample_vector(ix@, entries.deep_view()) == Ok::<Seq<u64>, FatalError>(v@),
            Err(e) => sample_vector(ix@, entries.deep_view()) == Err::<Seq<u64>, FatalError>(e),
        },
{
    let total = ix.total_precinct_count();
    let mut v: Vec<u64> = Vec::new();
    let mut z: usize = 0;
    while z < total
        invariant
            z <= total,
            v@ =~= zero_vector(z as nat),
        decreases total - z,
    {
        v.push(0);
        z = z + 1;
    }
    proof {
        assert(v@ =~= zero_vector(total_count(ix@)));
    }
    let ghost edv = entries.deep_view();
    let mut i: usize = 0;
    proof {
        assert(edv.skip(0) =~= edv);
    }
    while i < entries.len()
        invariant
            i <= entries@.len(),
            edv.len() == entries@.len(),
            apply_entries(ix@, v@, edv.skip(i as int)) == sample_vector(ix@, edv),
        decreases entries.len() - i,
    {
        let ghost rest = edv.skip(i as int);
        proof {
            assert(rest[0] == edv[i as int]);
            assert(edv[i as int] == (entries@[i as int].key@, entries@[i as int].label));
            assert(rest.skip(1) =~= edv.skip(i + 1));
        }
        let entry = &entries[i];
        match apply_entry_exec(ix, &mut v, entry.key.as_str(), &entry.label) {
            Ok(_) => {},
            Err(e) => {
                return Err(e);
            },
        }
        i = i + 1;
    }
    proof {
        assert(edv.skip(i as int) =~= Seq::<(Seq<char>, Option<u64>)>::empty());
    }
    Ok(v)
}

/// The outcome of one data line of the sample stream: a fatal error when
/// the line is not valid JSON or an entry is fatal, no vector when the line
/// has no `districting` array, and the sample's vector otherwise.
pub open spec fn line_outcome(
    ixv: Seq<(Seq<char>, Seq<(Seq<char>, u64)>)>,
    line: Seq<char>,
) -> Result<Option<Seq<u64>>, FatalError> {
    match sample_line_shape_of(line) {
        None => Err(FatalError::LineParse),
        Some(None) => Ok(None),
        Some(Some(es)) => match apply_entries(ixv, zero_vector(total_count(ixv)), es) {
            Ok(v) => Ok(Some(v)),
            Err(e) => Err(e),
        },
    }
}

/// Canonicalizes one data line: parses the record and, where it holds a
/// `districting` array, resolves its entries into an assignment vector. A
/// record without that array yields no vector and no error.
pub fn canonicalize_line(ix: &ShapeIndex, line: &str) -> (r: Result<Option<Vec<u64>>, FatalError>)
    requires
        total_count(ix@) <= usize::MAX,
    ensures
        match r {
            Ok(None) => line_outcome(ix@, line@) == Ok::<Option<Seq<u64>>, FatalError>(None),
            Ok(Some(v)) => line_outcome(ix@, line@) == Ok::<Option<Seq<u64>>, FatalError>(
                Some(v@),
            ),
            Err(e) => line_outcome(ix@, line@) == Err::<Option<Seq<u64>>, FatalError>(e),
        },
{
    match parse_sample_line(line) {
        SampleShape::Malformed => Err(FatalError::LineParse),
        SampleShape::NoAssignments => Ok(None),
        SampleShape::Entries(entries) => match canonicalize_sample(ix, &entries) {
            Ok(v) => Ok(Some(v)),
            Err(e) => Err(e),
        },
    }
}

/// The streaming discipline of text mode, from line `i` on: line 0 is a
/// discarded format marker, lines 1 and 2 are copied verbatim to the header
/// side channel, and every later line `i` is sample `i - 2`, whose record is
/// emitted unless the line lacks a `districting` array; the first fatal line
/// aborts the run.
pub open spec fn text_run_from(
    ixv: Seq<(Seq<char>, Seq<(Seq<char>, u64)>)>,
    lines: Seq<Seq<char>>,
    i: int,
) -> Result<(Seq<Seq<char>>, Seq<Seq<char>>), FatalError>
    decreases lines.len() - i,
{
    if i < 0 || i >= lines.len() {
        Ok((Seq::empty(), Seq::empty()))
    } else if i == 0 {
        text_run_from(ixv, lines, i + 1)
    } else if i <= 2 {
        match text_run_from(ixv, lines, i + 1) {
            Err(e) => Err(e),
            Ok(hr) => Ok((seq![lines[i]] + hr.0, hr.1)),
        }
    } else {
        match line_outcome(ixv, lines[i]) {
            Err(e) => Err(e),
            Ok(None) => text_run_from(ixv, lines, i + 1),
            Ok(Some(v)) => match text_run_from(ixv, lines, i + 1) {
                Err(e) => Err(e),
                Ok(hr) => Ok((hr.0, seq![text_record((i - 2) as nat, v)] + hr.1)),
            },
        }
    }
}

/// The streaming discipline of binary mode, from line `i` on: the same line
/// roles as text mode, each emitted sample a fixed-width binary block; a
/// label too wide for the encoding is fatal.
pub open spec fn bin_run_from(
    ixv: Seq<(Seq<char>, Seq<(Seq<char>, u64)>)>,
    lines: Seq<Seq<char>>,
    i: int,
) -> Result<(Seq<Seq<char>>, Seq<u8>), FatalError>
    decreases lines.len() - i,
{
    if i < 0 || i >= lines.len() {
        Ok((Seq::empty(), Seq::empty()))
    } else if i == 0 {
        bin_run_from(ixv, lines, i + 1)
    } else if i <= 2 {
        match bin_run_from(ixv, lines, i + 1) {
            Err(e) => Err(e),
            Ok(hr) => Ok((seq![lines[i]] + hr.0, hr.1)),
        }
    } else {
        match line_outcome(ixv, lines[i]) {
            Err(e) => Err(e),
            Ok(None) => bin_run_from(ixv, lines, i + 1),
            Ok(Some(v)) => if !labels_fit(v) {
                Err(FatalError::LabelTooLarge)
            } else {
                match bin_run_from(ixv, lines, i + 1) {
                    Err(e) => Err(e),
                    Ok(hr) => Ok((hr.0, sample_block(v) + hr.1)),
                }
            },
        }
    }
}

/// The output of a text-mode run: the two header lines copied verbatim and
/// one record line per emitted sample.
pub struct TextRun {
    pub header_lines: Vec<String>,
    pub records: Vec<String>,
}

/// The output of a binary-mode run: the two header lines copied verbatim
/// and the output bytes, the magic header followed by the sample blocks.
pub struct BinRun {
    pub header_lines: Vec<String>,
    pub bytes: Vec<u8>,
}

/// Converts a sample stream to text-mode records: builds the shape index
/// from the topology document, then applies the streaming discipline to the
/// input lines. Fails exactly when the topology document is not valid JSON
/// or a line is fatal.
#[verifier::loop_isolation(false)]
pub fn canonicalize_jsonl(topology: &str, region: &str, precinct: &str, lines: &Vec<String>) -> (r:
    Result<TextRun, FatalError>)
    ensures
        match topology_nodes_of(topology@, region@, precinct@) {
            None => r matches Err(e) && e == FatalError::TopologyParse,
            Some(ns) => match r {
                Ok(out) => text_run_from(index_of_nodes(ns), lines.deep_view(), 0) == Ok::<
                    (Seq<Seq<char>>, Seq<Seq<char>>),
                    FatalError,
                >((out.header_lines.deep_view(), out.records.deep_view())),
                Err(e) => text_run_from(index_of_nodes(ns), lines.deep_view(), 0) == Err::<
                    (Seq<Seq<char>>, Seq<Seq<char>>),
                    FatalError,
                >(e),
            },
        },
{
    let ix = match read_shape(topology, region, precinct) {
        None => {
            return Err(FatalError::TopologyParse);
        },
        Some(ix) => ix,
    };
    let ghost ixv = ix@;
    let ghost ldv = lines.deep_view();
    let mut headers: Vec<String> = Vec::new();
    let mut records: Vec<String> = Vec::new();
    let mut i: usize = 0;
    proof {
        if text_run_from(ixv, ldv, 0) is Ok {
            let hr = text_run_from(ixv, ldv, 0)->Ok_0;
            assert(headers.deep_view() + hr.0 =~= hr.0);
            assert(records.deep_view() + hr.1 =~= hr.1);
            assert((hr.0, hr.1) == hr);
        }
    }
    while i < lines.len()
        invariant
            i <= lines@.len(),
            ldv.len() == lines@.len(),
            text_run_from(ixv, ldv, i as int) is Ok ==> text_run_from(ixv, ldv, 0) == Ok::<
                (Seq<Seq<char>>, Seq<Seq<char>>),
                FatalError,
            >(
                (
                    headers.deep_view() + text_run_from(ixv, ldv, i as int)->Ok_0.0,
                    records.deep_view() + text_run_from(ixv, ldv, i as int)->Ok_0.1,
                ),
            ),
            text_run_from(ixv, ldv, i as int) is Err ==> text_run_from(ixv, ldv, 0)
                == text_run_from(ixv, ldv, i as int),
        decreases lines.len() - i,
    {
        let ghost pre_h = headers.deep_view();
        let ghost pre_r = records.deep_view();
        proof {
            assert(ldv[i as int] == lines@[i as int]@);
        }
        if i == 0 {
        } else if i <= 2 {
            headers.push(lines[i].clone());
            proof {
                assert(headers.deep_view() =~= pre_h.push(ldv[i as int]));
                if text_run_from(ixv, ldv, i + 1) is Ok {
                    let hr = text_run_from(ixv, ldv, i + 1)->Ok_0;
                    assert(pre_h + (seq![ldv[i as int]] + hr.0) =~= headers.deep_view() + hr.0);
                    assert((seq![ldv[i as int]] + hr.0, hr.1) == text_run_from(
                        ixv,
                        ldv,
                        i as int,
                    )->Ok_0);
                }
            }
        } else {
            match canonicalize_line(&ix, lines[i].as_str()) {
                Err(e) => {
                    return Err(e);
                },
                Ok(None) => {},
                Ok(Some(v)) => {
                    let rec = encode_text_record((i - 2) as u64, &v);
                    records.push(rec);
                    proof {
                        assert(records.deep_view() =~= pre_r.push(
                            text_record((i - 2) as nat, v@),
                        ));
                        if text_run_from(ixv, ldv, i + 1) is Ok {
                            let hr = text_run_from(ixv, ldv, i + 1)->Ok_0;
                            assert(pre_r + (seq![text_record((i - 2) as nat, v@)] + hr.1)
                                =~= records.deep_view() + hr.1);
                            assert((hr.0, seq![text_record((i - 2) as nat, v@)] + hr.1)
                                == text_run_from(ixv, ldv, i as int)->Ok_0);
                        }
                    }
                },
            }
        }
        i = i + 1;
    }
    proof {
        assert(text_run_from(ixv, ldv, i as int) == Ok::<
            (Seq<Seq<char>>, Seq<Seq<char>>),
            FatalError,
        >((Seq::<Seq<char>>::empty(), Seq::<Seq<char>>::empty())));
        assert(headers.deep_view() + Seq::<Seq<char>>::empty() =~= headers.deep_view());
        assert(records.deep_view() + Seq::<Seq<char>>::empty() =~= records.deep_view());
    }
    Ok(TextRun { header_lines: headers, records })
}

/// Converts a sample stream to binary output: builds the shape index from
/// the topology document, then applies the streaming discipline, writing
/// the magic header once before the sample blocks. Fails exactly when the
/// topology document is not valid JSON or a line is fatal, counting a label
/// too wide for the 16-bit encoding as fatal.
#[verifier::loop_isolation(false)]
pub fn canonicalize_jsonl_bin(
    topology: &str,
    region: &str,
    precinct: &str,
    lines: &Vec<String>,
) -> (r: Result<BinRun, FatalError>)
    ensures
        match topology_nodes_of(topology@, region@, precinct@) {
            None => r matches Err(e) && e == FatalError::TopologyParse,
            Some(ns) => match r {
                Ok(out) => bin_run_from(index_of_nodes(ns), lines.deep_view(), 0) matches Ok(hr)
                    && out.header_lines.deep_view() == hr.0 && out.bytes@ == magic_bytes() + hr.1,
                Err(e) => bin_run_from(index_of_nodes(ns), lines.deep_view(), 0) == Err::<
                    (Seq<Seq<char>>, Seq<u8>),
                    FatalError,
                >(e),
            },
        },
{
    let ix = match read_shape(topology, region, precinct) {
        None => {
            return Err(FatalError::TopologyParse);
        },
        Some(ix) => ix,
    };
    let ghost ixv = ix@;
    let ghost ldv = lines.deep_view();
    let mut headers: Vec<String> = Vec::new();
    let mut body: Vec<u8> = Vec::new();
    let mut i: usize = 0;
    proof {
        if bin_run_from(ixv, ldv, 0) is Ok {
            let hr = bin_run_from(ixv, ldv, 0)->Ok_0;
            assert(headers.deep_view() + hr.0 =~= hr.0);
            assert(body@ + hr.1 =~= hr.1);
            assert((hr.0, hr.1) == hr);
        }
    }
    while i < lines.len()
        invariant
            i <= lines@.len(),
            ldv.len() == lines@.len(),
            bin_run_from(ixv, ldv, i as int) is Ok ==> bin_run_from(ixv, ldv, 0) == Ok::<
                (Seq<Seq<char>>, Seq<u8>),
                FatalError,
            >(
                (
                    headers.deep_view() + bin_run_from(ixv, ldv, i as int)->Ok_0.0,
                    body@ + bin_run_from(ixv, ldv, i as int)->Ok_0.1,
                ),
            ),
            bin_run_from(ixv, ldv, i as int) is Err ==> bin_run_from(ixv, ldv, 0) == bin_run_from(
                ixv,
                ldv,
                i as int,
            ),
        decreases lines.len() - i,
    {
        let ghost pre_h = headers.deep_view();
        let ghost pre_b = body@;
        proof {
            assert(ldv[i as int] == lines@[i as int]@);
        }
        if i == 0 {
        } else if i <= 2 {
            headers.push(lines[i].clone());
            proof {
                assert(headers.deep_view() =~= pre_h.push(ldv[i as int]));
                if bin_run_from(ixv, ldv, i + 1) is Ok {
                    let hr = bin_run_from(ixv, ldv, i + 1)->Ok_0;
                    assert(pre_h + (seq![ldv[i as int]] + hr.0) =~= headers.deep_view() + hr.0);
                    assert((seq![ldv[i as int]] + hr.0, hr.1) == bin_run_from(
                        ixv,
                        ldv,
                        i as int,
                    )->Ok_0);
                }
            }
        } else {
            match canonicalize_line(&ix, lines[i].as_str()) {
                Err(e) => {
                    return Err(e);
                },
                Ok(None) => {},
                Ok(Some(v)) => {
                    let mut blk = match encode_binary_sample(&v) {
                        Err(e) => {
                            return Err(e);
                        },
                        Ok(blk) => blk,
                    };
                    body.append(&mut blk);
                    proof {
                        assert(body@ =~= pre_b + sample_block(v@));
                        if bin_run_from(ixv, ldv, i + 1) is Ok {
                            let hr = bin_run_from(ixv, ldv, i + 1)->Ok_0;
                            assert(pre_b + (sample_block(v@) + hr.1) =~= body@ + hr.1);
                            assert((hr.0, sample_block(v@) + hr.1) == bin_run_from(
                                ixv,
                                ldv,
                                i as int,
                            )->Ok_0);
                        }
                    }
                },
            }
        }
        i = i + 1;
    }
    proof {
        assert(bin_run_from(ixv, ldv, i as int) == Ok::<(Seq<Seq<char>>, Seq<u8>), FatalError>(
            (Seq::<Seq<char>>::empty(), Seq::<u8>::empty()),
        ));
        assert(headers.deep_view() + Seq::<Seq<char>>::empty() =~= headers.deep_view());
        assert(body@ + Seq::<u8>::empty() =~= body@);
    }
    let mut bytes = bin_magic();
    bytes.append(&mut body);
    Ok(BinRun { header_lines: headers, bytes })
}

/// Whether the entry with this key resolves to a write of flat index `j`.
pub open spec fn entry_writes(
    ixv: Seq<(Seq<char>, Seq<(Seq<char>, u64)>)>,
    key: Seq<char>,
    j: int,
) -> bool {
    let parts = parse_key_spec(key);
    if parts.len() == 1 {
        match lookup_region(ixv, parts[0]) {
            Some(ps) => region_covers(ps, j),
            None => false,
        }
    } else if parts.len() == 2 {
        match lookup_region(ixv, parts[0]) {
            Some(ps) => match lookup_precinct(ps, parts[1]) {
                Some(id) => id as int == j,
                None => false,
            },
            None => false,
        }
    } else {
        false
    }
}

/// A key of any component count other than one or two never alters the
/// assignment vector and never aborts the run, whatever its label.
pub proof fn lemma_malformed_key_inert(
    ixv: Seq<(Seq<char>, Seq<(Seq<char>, u64)>)>,
    v: Seq<u64>,
    key: Seq<char>,
    label: Option<u64>,
)
    requires
        parse_key_spec(key).len() != 1,
        parse_key_spec(key).len() != 2,
    ensures
        apply_entry(ixv, v, key, label) == Ok::<Seq<u64>, FatalError>(v),
{
}

/// A region-only key broadcasts: every precinct belonging to the region
/// takes the entry's label, whatever the slot held before, and every slot
/// the region does not cover is unchanged.
pub proof fn lemma_region_broadcast(
    ixv: Seq<(Seq<char>, Seq<(Seq<char>, u64)>)>,
    v: Seq<u64>,
    key: Seq<char>,
    l: u64,
    ps: Seq<(Seq<char>, u64)>,
)
    requires
        parse_key_spec(key).len() == 1,
        lookup_region(ixv, parse_key_spec(key)[0]) == Some(ps),
        ps.len() > 0,
        ids_in_range(ps, v.len()),
    ensures
        apply_entry(ixv, v, key, Some(l)) == Ok::<Seq<u64>, FatalError>(broadcast_write(v, ps, l)),
        forall|k: int| 0 <= k < ps.len() ==> broadcast_write(v, ps, l)[ps[k].1 as int] == l,
        forall|j: int|
            0 <= j < v.len() && !region_covers(ps, j) ==> broadcast_write(v, ps, l)[j] == v[j],
{
    assert forall|k: int| 0 <= k < ps.len() implies broadcast_write(v, ps, l)[ps[k].1 as int]
        == l by {
        assert(region_covers(ps, ps[k].1 as int));
    }
}

/// Applying the entries and then one more is applying the entries and
/// feeding the result to the last.
pub proof fn lemma_apply_entries_snoc(
    ixv: Seq<(Seq<char>, Seq<(Seq<char>, u64)>)>,
    v: Seq<u64>,
    es: Seq<(Seq<char>, Option<u64>)>,
    e: (Seq<char>, Option<u64>),
)
    ensures
        apply_entries(ixv, v, es.push(e)) == (match apply_entries(ixv, v, es) {
            Ok(v2) => apply_entry(ixv, v2, e.0, e.1),
            Err(er) => Err(er),
        }),
    decreases es.len(),
{
    if es.len() == 0 {
        assert(es.push(e)[0] == e);
        assert(es.push(e).skip(1) =~= Seq::<(Seq<char>, Option<u64>)>::empty());
        assert(es =~= Seq::<(Seq<char>, Option<u64>)>::empty());
        match apply_entry(ixv, v, e.0, e.1) {
            Ok(v2) => {
                assert(apply_entries(ixv, v2, es.push(e).skip(1)) == Ok::<Seq<u64>, FatalError>(
                    v2,
                ));
            },
            Err(_) => {},
        }
    } else {
        assert(es.push(e)[0] == es[0]);
        assert(es.push(e).skip(1) =~= es.skip(1).push(e));
        match apply_entry(ixv, v, es[0].0, es[0].1) {
            Ok(v2) => {
                lemma_apply_entries_snoc(ixv, v2, es.skip(1), e);
            },
            Err(_) => {},
        }
    }
}

/// Last write wins: when a sample's entries end with one that writes flat
/// index `j` and the sample succeeds, the final vector holds that entry's
/// label at `j`, whatever earlier entries wrote there.
pub proof fn lemma_last_write_wins(
    ixv: Seq<(Seq<char>, Seq<(Seq<char>, u64)>)>,
    v: Seq<u64>,
    es: Seq<(Seq<char>, Option<u64>)>,
    key: Seq<char>,
    l: u64,
    j: int,
)
    requires
        apply_entries(ixv, v, es.push((key, Some(l)))) is Ok,
        entry_writes(ixv, key, j),
    ensures
        apply_entries(ixv, v, es.push((key, Some(l))))->Ok_0[j] == l,
{
    lemma_apply_entries_snoc(ixv, v, es, (key, Some(l)));
    let v2 = apply_entries(ixv, v, es)->Ok_0;
    let parts = parse_key_spec(key);
    if parts.len() == 1 {
        let ps = lookup_region(ixv, parts[0])->Some_0;
        assert(region_covers(ps, j));
        assert(ps.len() > 0);
    }
}

/// A vector slot no entry of the sample writes still holds the slot's
/// starting value after a successful application.
pub proof fn lemma_untouched_unchanged(
    ixv: Seq<(Seq<char>, Seq<(Seq<char>, u64)>)>,
    v: Seq<u64>,
    es: Seq<(Seq<char>, Option<u64>)>,
    j: int,
)
    requires
        apply_entries(ixv, v, es) is Ok,
        0 <= j < v.len(),
        forall|k: int| 0 <= k < es.len() ==> !entry_writes(ixv, #[trigger] es[k].0, j),
    ensures
        apply_entries(ixv, v, es)->Ok_0.len() == v.len(),
        apply_entries(ixv, v, es)->Ok_0[j] == v[j],
    decreases es.len(),
{
    if es.len() > 0 {
        let v2 = apply_entry(ixv, v, es[0].0, es[0].1)->Ok_0;
        assert(!entry_writes(ixv, es[0].0, j));
        assert(v2[j] == v[j]);
        assert forall|k: int| 0 <= k < es.skip(1).len() implies !entry_writes(
            ixv,
            #[trigger] es.skip(1)[k].0,
            j,
        ) by {
            assert(es.skip(1)[k] == es[k + 1]);
        }
        lemma_untouched_unchanged(ixv, v2, es.skip(1), j);
    }
}

/// Every successful sample yields a vector of exactly the index's total
/// precinct count, and any flat index no entry of the sample writes holds
/// the default label zero.
pub proof fn lemma_sample_vector_default(
    ixv: Seq<(Seq<char>, Seq<(Seq<char>, u64)>)>,
    es: Seq<(Seq<char>, Option<u64>)>,
    j: int,
)
    requires
        sample_vector(ixv, es) is Ok,
        0 <= j < total_count(ixv),
        forall|k: int| 0 <= k < es.len() ==> !entry_writes(ixv, #[trigger] es[k].0, j),
    ensures
        sample_vector(ixv, es)->Ok_0.len() == total_count(ixv),
        sample_vector(ixv, es)->Ok_0[j] == 0,
{
    lemma_untouched_unchanged(ixv, zero_vector(total_count(ixv)), es, j);
}

/// A data line without a `districting` array emits nothing and the run goes
/// on with the next line, in either output mode.
pub proof fn lemma_missing_field_skipped(
    ixv: Seq<(Seq<char>, Seq<(Seq<char>, u64)>)>,
    lines: Seq<Seq<char>>,
    i: int,
)
    requires
        3 <= i < lines.len(),
        sample_line_shape_of(lines[i]) == Some(Option::<Seq<(Seq<char>, Option<u64>)>>::None),
    ensures
        text_run_from(ixv, lines, i) == text_run_from(ixv, lines, i + 1),
        bin_run_from(ixv, lines, i) == bin_run_from(ixv, lines, i + 1),
{
}

} // verus!
