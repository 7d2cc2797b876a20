//! Topology resolution: from the per-logical-processor stanzas of
//! `/proc/cpuinfo` to the physical cores of the processor.
use vstd::prelude::*;
use itertools::Itertools;
use std::collections::HashMap;
use vstd::relations::sorted_by;
use crate::core_select::{dedup, dedup_spec, lemma_is_sorted_spec, sorted_spec, usize_leq};
use crate::text::{
    chars_of, parse_usize, parse_usize_spec, split_on, split_spec, starts_with, starts_with_spec,
    trim, trim_spec,
};

verus! {

/// One logical processor as its stanza describes it.
#[derive(Debug, Clone, PartialEq)]
pub struct ProcCpuInfo {
    pub processor: usize,
    pub core_id: usize,
    pub name: String,
    /// The `cpu MHz` field as written, empty where the stanza has none.
    pub mhz: String,
}

/// One physical core.
#[derive(Debug, Clone, PartialEq)]
pub struct CpuInfo {
    /// Rank of the core among the distinct core ids, from 0.
    pub id: usize,
    /// The lowest logical processor of the core.
    pub proc_cpu_id: usize,
    /// How many logical processors the core has.
    pub thread_count: usize,
    pub name: String,
    /// The `cpu MHz` field of the core's lowest logical processor.
    pub mhz: String,
}

/// The topology of the processor.
#[derive(Debug, Clone, PartialEq)]
pub struct CpusInfo {
    pub cpus: Vec<CpuInfo>,
    pub physical_cores: usize,
    pub logical_cores: usize,
}

pub ghost struct ProcRecord {
    pub processor: usize,
    pub core_id: usize,
    pub name: Seq<char>,
    pub mhz: Seq<char>,
}

pub ghost struct CoreRecord {
    pub id: usize,
    pub proc_cpu_id: usize,
    pub thread_count: usize,
    pub name: Seq<char>,
    pub mhz: Seq<char>,
}

impl View for ProcCpuInfo {
    type V = ProcRecord;

    open spec fn view(&self) -> ProcRecord {
        ProcRecord {
            processor: self.processor,
            core_id: self.core_id,
            name: self.name@,
            mhz: self.mhz@,
        }
    }
}

impl View for CpuInfo {
    type V = CoreRecord;

    open spec fn view(&self) -> CoreRecord {
        CoreRecord {
            id: self.id,
            proc_cpu_id: self.proc_cpu_id,
            thread_count: self.thread_count,
            name: self.name@,
            mhz: self.mhz@,
        }
    }
}

pub open spec fn proc_views(s: Seq<ProcCpuInfo>) -> Seq<ProcRecord> {
    s.map_values(|p: ProcCpuInfo| p@)
}

pub open spec fn cpu_views(s: Seq<CpuInfo>) -> Seq<CoreRecord> {
    s.map_values(|c: CpuInfo| c@)
}

/// Relies on `String`'s `FromIterator<char>`: the characters, in order.
#[verifier::external_body]
fn string_from_chars(chars: &Vec<char>) -> (r: String)
    ensures
        r@ == chars@,
{
    chars.iter().collect()
}

/// The trimmed text after the first `:` of `line` (up to a second one),
/// or `None` where the line has no `:`.
pub open spec fn field_value(line: Seq<char>) -> Option<Seq<char>> {
    let parts = split_spec(line, ':');
    if parts.len() >= 2 {
        Some(trim_spec(parts[1]))
    } else {
        None
    }
}

/// The value of the last line of `lines` that starts with `key`; `None`
/// where there is no such line or that line has no value.
pub open spec fn field_spec(lines: Seq<Seq<char>>, key: Seq<char>) -> Option<Seq<char>>
    decreases lines.len(),
{
    if lines.len() == 0 {
        None
    } else if starts_with_spec(lines.last(), key) {
        field_value(lines.last())
    } else {
        field_spec(lines.drop_last(), key)
    }
}

pub open spec fn parsed_number(v: Option<Seq<char>>) -> Option<usize> {
    match v {
        Some(t) => parse_usize_spec(t),
        None => None,
    }
}

pub open spec fn text_or_empty(v: Option<Seq<char>>) -> Seq<char> {
    match v {
        Some(t) => t,
        None => Seq::empty(),
    }
}

/// The logical processor that the lines of a stanza describe: `None`
/// where the processor number or the core id is missing or unreadable.
pub open spec fn stanza_record(lines: Seq<Seq<char>>) -> Option<ProcRecord> {
    let processor = parsed_number(field_spec(lines, "processor"@));
    let core_id = parsed_number(field_spec(lines, "core id"@));
    if processor is Some && core_id is Some {
        Some(
            ProcRecord {
                processor: processor->0,
                core_id: core_id->0,
                name: text_or_empty(field_spec(lines, "model name"@)),
                mhz: text_or_empty(field_spec(lines, "cpu MHz"@)),
            },
        )
    } else {
        None
    }
}

pub open spec fn opt_view(v: Option<Vec<char>>) -> Option<Seq<char>> {
    match v {
        Some(t) => Some(t@),
        None => None,
    }
}

fn field_value_exec(line: &Vec<char>) -> (r: Option<Vec<char>>)
    ensures
        match field_value(line@) {
            Some(v) => r is Some && r->0@ == v,
            None => r is None,
        },
{
    let parts = split_on(line, ':');
    if parts.len() >= 2 {
        Some(trim(&parts[1]))
    } else {
        None
    }
}

fn number_of(v: &Option<Vec<char>>) -> (r: Option<usize>)
    ensures
        r == parsed_number(opt_view(*v)),
{
    match v {
        Some(t) => parse_usize(t),
        None => None,
    }
}

fn string_of(v: &Option<Vec<char>>) -> (r: String)
    ensures
        r@ == text_or_empty(opt_view(*v)),
{
    match v {
        Some(t) => string_from_chars(t),
        None => string_from_chars(&Vec::new()),
    }
}

/// Reads the logical processor that the lines of one stanza describe.
fn parse_cpuinfo(lines: &Vec<Vec<char>>) -> (r: Option<ProcCpuInfo>)
    ensures
        match stanza_record(lines@.map_values(|l: Vec<char>| l@)) {
            Some(rec) => r is Some && r->0@ == rec,
            None => r is None,
        },
{
    let ghost ls = lines@.map_values(|l: Vec<char>| l@);
    let processor_key = chars_of("processor");
    let core_id_key = chars_of("core id");
    let name_key = chars_of("model name");
    let mhz_key = chars_of("cpu MHz");
    let mut processor: Option<Vec<char>> = None;
    let mut core_id: Option<Vec<char>> = None;
    let mut name: Option<Vec<char>> = None;
    let mut mhz: Option<Vec<char>> = None;
    let n = lines.len();
    for i in 0..n
        invariant
            n == lines@.len() == ls.len(),
            ls == lines@.map_values(|l: Vec<char>| l@),
            processor_key@ == "processor"@,
            core_id_key@ == "core id"@,
            name_key@ == "model name"@,
            mhz_key@ == "cpu MHz"@,
            opt_view(processor) == field_spec(ls.take(i as int), "processor"@),
            opt_view(core_id) == field_spec(ls.take(i as int), "core id"@),
            opt_view(name) == field_spec(ls.take(i as int), "model name"@),
            opt_view(mhz) == field_spec(ls.take(i as int), "cpu MHz"@),
    {
        let line = &lines[i];
        assert(ls.take(i + 1).drop_last() == ls.take(i as int));
        assert(ls.take(i + 1).last() == line@);
        if starts_with(line, &processor_key) {
            processor = field_value_exec(line);
        }
        if starts_with(line, &core_id_key) {
            core_id = field_value_exec(line);
        }
        if starts_with(line, &name_key) {
            name = field_value_exec(line);
        }
        if starts_with(line, &mhz_key) {
            mhz = field_value_exec(line);
        }
    }
    assert(ls.take(n as int) == ls);
    let p = number_of(&processor);
    let c = number_of(&core_id);
    match (p, c) {
        (Some(p), Some(c)) => Some(
            ProcCpuInfo { processor: p, core_id: c, name: string_of(&name), mhz: string_of(&mhz) },
        ),
        _ => None,
    }
}


/// `lines` cut at every empty line: the stanzas of the table.
pub open spec fn stanzas_spec(lines: Seq<Seq<char>>) -> Seq<Seq<Seq<char>>>
    decreases lines.len(),
{
    if lines.len() == 0 {
        seq![Seq::empty()]
    } else {
        let prev = stanzas_spec(lines.drop_last());
        if lines.last().len() == 0 {
            prev.push(Seq::empty())
        } else {
            prev.update(prev.len() - 1, prev.last().push(lines.last()))
        }
    }
}

/// The logical processors that `stanzas` describe, in order, without
/// the stanzas that describe none.
pub open spec fn records_of(stanzas: Seq<Seq<Seq<char>>>) -> Seq<ProcRecord>
    decreases stanzas.len(),
{
    if stanzas.len() == 0 {
        Seq::empty()
    } else {
        let prev = records_of(stanzas.drop_last());
        match stanza_record(stanzas.last()) {
            Some(r) => prev.push(r),
            None => prev,
        }
    }
}

/// The logical processors that the table `text` lists: its lines, cut
/// into stanzas at empty lines, each read on its own.
pub open spec fn records_spec(text: Seq<char>) -> Seq<ProcRecord> {
    records_of(stanzas_spec(split_spec(text, '\n')))
}

pub open spec fn line_views(lines: Seq<Vec<char>>) -> Seq<Seq<char>> {
    lines.map_values(|l: Vec<char>| l@)
}

/// Reads every logical processor of the table `text`, in the order of
/// its stanzas; a stanza without a readable processor number and core id
/// is skipped.
pub fn parse_proc_cpu_infos(text: &str) -> (r: Vec<ProcCpuInfo>)
    ensures
        proc_views(r@) == records_spec(text@),
{
    let chars = chars_of(text);
    let lines = split_on(&chars, '\n');
    let ghost ls = split_spec(text@, '\n');
    assert(line_views(lines@) =~= ls);
    let mut records: Vec<ProcCpuInfo> = Vec::new();
    let mut current: Vec<Vec<char>> = Vec::new();
    let n = lines.len();
    for i in 0..n
        invariant
            n == lines@.len() == ls.len(),
            ls == line_views(lines@),
            stanzas_spec(ls.take(i as int)).len() >= 1,
            proc_views(records@) == records_of(stanzas_spec(ls.take(i as int)).drop_last()),
            line_views(current@) == stanzas_spec(ls.take(i as int)).last(),
    {
        let ghost prev = stanzas_spec(ls.take(i as int));
        assert(ls.take(i + 1).drop_last() == ls.take(i as int));
        assert(ls.take(i + 1).last() == lines@[i as int]@);
        if lines[i].len() == 0 {
            let ghost done = prev.last();
            assert(stanzas_spec(ls.take(i + 1)) == prev.push(Seq::empty()));
            assert(stanzas_spec(ls.take(i + 1)).drop_last() == prev);
            assert(prev.drop_last().push(prev.last()) == prev);
            match parse_cpuinfo(&current) {
                Some(rec) => {
                    records.push(rec);
                    assert(proc_views(records@) =~= records_of(prev.drop_last()).push(rec@));
                },
                None => {},
            }
            current = Vec::new();
            assert(line_views(current@) =~= Seq::empty());
        } else {
            let line = slice_lines(&lines, i);
            current.push(line);
            assert(line_views(current@) =~= prev.last().push(ls[i as int]));
            assert(stanzas_spec(ls.take(i + 1)).drop_last() =~= prev.drop_last());
        }
    }
    assert(ls.take(n as int) == ls);
    let ghost all = stanzas_spec(ls);
    match parse_cpuinfo(&current) {
        Some(rec) => {
            records.push(rec);
        },
        None => {},
    }
    assert(all.drop_last().push(all.last()) == all);
    assert(proc_views(records@) =~= records_of(all));
    records
}

/// A copy of line `i`.
fn slice_lines(lines: &Vec<Vec<char>>, i: usize) -> (r: Vec<char>)
    requires
        i < lines@.len(),
    ensures
        r@ == lines@[i as int]@,
{
    let line = &lines[i];
    let mut r: Vec<char> = Vec::new();
    for k in 0..line.len()
        invariant
            r@ == line@.take(k as int),
    {
        r.push(line[k]);
        assert(line@.take(k + 1) == line@.take(k as int).push(line@[k as int]));
    }
    assert(line@.take(line@.len() as int) == line@);
    r
}


pub open spec fn core_ids_of(recs: Seq<ProcRecord>) -> Seq<usize> {
    recs.map_values(|r: ProcRecord| r.core_id)
}

/// The logical processors of `recs` with core id `core_id`, in order.
pub open spec fn group_spec(recs: Seq<ProcRecord>, core_id: usize) -> Seq<ProcRecord> {
    recs.filter(|r: ProcRecord| r.core_id == core_id)
}

/// Groups the logical processors by core id, keeping their order.
pub fn group_by_core_id(all_proc_cpu_infos: Vec<ProcCpuInfo>) -> (r: HashMap<usize, Vec<ProcCpuInfo>>)
    ensures
        forall|k: usize| #[trigger] r@.contains_key(k) <==> core_ids_of(proc_views(all_proc_cpu_infos@)).contains(k),
        forall|k: usize| #[trigger] r@.contains_key(k) ==> proc_views(r@[k]@) == group_spec(proc_views(all_proc_cpu_infos@), k),
{
    let ghost all = proc_views(all_proc_cpu_infos@);
    let mut grouped: HashMap<usize, Vec<ProcCpuInfo>> = HashMap::new();
    let mut rest = all_proc_cpu_infos;
    let ghost total = rest@.len();
    while rest.len() > 0
        invariant
            total == all.len(),
            rest@.len() <= total,
            proc_views(rest@) == all.skip(total - rest@.len()),
            forall|k: usize| #[trigger] grouped@.contains_key(k) <==> core_ids_of(all.take(total - rest@.len())).contains(k),
            forall|k: usize| #[trigger] grouped@.contains_key(k) ==> proc_views(grouped@[k]@) == group_spec(all.take(total - rest@.len()), k),
        decreases rest@.len(),
    {
        let ghost done = total - rest@.len();
        let ghost before = grouped@;
        let ghost before_rest = rest@;
        let item = rest.remove(0);
        proof {
            assert(item == before_rest[0]);
            assert(proc_views(before_rest)[0] == all.skip(done)[0]);
            assert(item@ == all[done]);
            assert forall|j: int| 0 <= j < rest@.len() implies #[trigger] proc_views(rest@)[j] == all.skip(done + 1)[j] by {
                assert(rest@[j] == before_rest[j + 1]);
                assert(proc_views(before_rest)[j + 1] == all.skip(done)[j + 1]);
            }
            assert(proc_views(rest@) =~= all.skip(done + 1));
            assert(all.take(done + 1) == all.take(done).push(item@));
            assert(core_ids_of(all.take(done + 1)) =~= core_ids_of(all.take(done)).push(item.core_id));
        }
        let core_id = item.core_id;
        let mut group = match grouped.remove(&core_id) {
            Some(g) => g,
            None => Vec::new(),
        };
        proof {
            if !before.contains_key(core_id) {
                assert(!core_ids_of(all.take(done)).contains(core_id));
                assert(group_spec(all.take(done), core_id) =~= Seq::empty()) by {
                    let g = group_spec(all.take(done), core_id);
                    if g.len() > 0 {
                        all.take(done).lemma_filter_contains_rev(|r: ProcRecord| r.core_id == core_id, g[0]);
                        let prefix = all.take(done);
                        let j = choose|j: int| 0 <= j < prefix.len() && #[trigger] prefix[j] == g[0];
                        assert(core_ids_of(prefix)[j] == core_id);
                    }
                }
            }
            assert(proc_views(group@) == group_spec(all.take(done), core_id));
        }
        let ghost prev_group = group@;
        group.push(item);
        proof {
            all.take(done).lemma_filter_push(item@, |r: ProcRecord| r.core_id == core_id);
            assert(proc_views(group@) =~= proc_views(prev_group).push(item@));
        }
        grouped.insert(core_id, group);
        proof {
            assert forall|k: usize| #[trigger] grouped@.contains_key(k) implies proc_views(grouped@[k]@) == group_spec(all.take(done + 1), k) by {
                if k != core_id {
                    all.take(done).lemma_filter_push(item@, |r: ProcRecord| r.core_id == k);
                }
            }
            let ids0 = core_ids_of(all.take(done));
            let ids1 = core_ids_of(all.take(done + 1));
            assert forall|k: usize| #[trigger] grouped@.contains_key(k) <== ids1.contains(k) by {
                if ids1.contains(k) && k != core_id {
                    let j = choose|j: int| 0 <= j < ids1.len() && #[trigger] ids1[j] == k;
                    assert(ids0[j] == k);
                }
            }
            assert forall|k: usize| #[trigger] grouped@.contains_key(k) ==> ids1.contains(k) by {
                if grouped@.contains_key(k) && k != core_id {
                    let j = choose|j: int| 0 <= j < ids0.len() && #[trigger] ids0[j] == k;
                    assert(ids1[j] == k);
                }
                if k == core_id {
                    assert(ids1[done] == k);
                }
            }
        }
    }
    assert(all.take(total as int) == all);
    grouped
}


/// The distinct core ids of `recs`, ascending: the physical cores in the
/// order of their ids.
pub open spec fn physical_core_ids(recs: Seq<ProcRecord>) -> Seq<usize> {
    sorted_spec(dedup_spec(core_ids_of(recs)))
}

/// The first logical processor of the non-empty `g` with the lowest
/// processor number.
pub open spec fn first_lowest(g: Seq<ProcRecord>) -> ProcRecord
    decreases g.len(),
{
    if g.len() <= 1 {
        g[0]
    } else {
        let best = first_lowest(g.drop_last());
        if g.last().processor < best.processor {
            g.last()
        } else {
            best
        }
    }
}

/// Physical core `id`, made of the logical processors `g`: its lowest
/// logical processor represents it.
pub open spec fn core_record(id: usize, g: Seq<ProcRecord>) -> CoreRecord {
    let rep = first_lowest(g);
    CoreRecord {
        id,
        proc_cpu_id: rep.processor,
        thread_count: g.len() as usize,
        name: rep.name,
        mhz: rep.mhz,
    }
}

/// The physical cores of the logical processors `recs`: one per distinct
/// core id, numbered from 0 in ascending order of core id.
pub open spec fn topology_spec(recs: Seq<ProcRecord>) -> Seq<CoreRecord> {
    let keys = physical_core_ids(recs);
    Seq::new(keys.len(), |i: int| core_record(i as usize, group_spec(recs, keys[i])))
}

pub proof fn lemma_dedup_contains(s: Seq<usize>, x: usize)
    requires
        dedup_spec(s).contains(x),
    ensures
        s.contains(x),
    decreases s.len(),
{
    if s.len() > 0 {
        let d = dedup_spec(s.drop_last());
        if d.contains(x) {
            lemma_dedup_contains(s.drop_last(), x);
            let j = choose|j: int| 0 <= j < s.drop_last().len() && #[trigger] s.drop_last()[j] == x;
            assert(s[j] == x);
        } else {
            assert(x == s.last());
            assert(s[s.len() - 1] == x);
        }
    }
}

proof fn lemma_physical_core_id_occurs(recs: Seq<ProcRecord>, i: int)
    requires
        0 <= i < physical_core_ids(recs).len(),
    ensures
        group_spec(recs, physical_core_ids(recs)[i]).len() > 0,
{
    let ids = core_ids_of(recs);
    let keys = physical_core_ids(recs);
    let k = keys[i];
    crate::core_select::lemma_usize_leq_total();
    dedup_spec(ids).lemma_sort_by_ensures(usize_leq());
    assert(keys.contains(k));
    assert(dedup_spec(ids).contains(k));
    lemma_dedup_contains(ids, k);
    let j = choose|j: int| 0 <= j < ids.len() && #[trigger] ids[j] == k;
    assert(recs[j].core_id == k);
    recs.lemma_filter_contains(|r: ProcRecord| r.core_id == k, j);
}

/// Relies on itertools' `Itertools::sorted`: the same values, ascending.
#[verifier::external_body]
fn sorted_ids(ids: Vec<usize>) -> (r: Vec<usize>)
    ensures
        sorted_by(r@, usize_leq()),
        r@.to_multiset() == ids@.to_multiset(),
{
    ids.into_iter().sorted().collect()
}

/// The index of the first logical processor of `g` with the lowest
/// processor number.
fn first_lowest_index(g: &Vec<ProcCpuInfo>) -> (r: usize)
    requires
        g@.len() > 0,
    ensures
        r < g@.len(),
        proc_views(g@)[r as int] == first_lowest(proc_views(g@)),
{
    let ghost gs = proc_views(g@);
    let mut best: usize = 0;
    let n = g.len();
    assert(gs.take(1).len() == 1);
    for i in 1..n
        invariant
            n == g@.len() == gs.len(),
            gs == proc_views(g@),
            best < i,
            gs[best as int] == first_lowest(gs.take(i as int)),
    {
        assert(gs.take(i + 1).drop_last() == gs.take(i as int));
        if g[i].processor < g[best].processor {
            best = i;
        }
    }
    assert(gs.take(n as int) == gs);
    best
}

/// The physical cores of the logical processors `parsed_cpu_info`: one
/// per distinct core id, numbered from 0 in ascending order of core id,
/// each represented by its lowest logical processor.
pub fn transform_to_cpu_info(parsed_cpu_info: Vec<ProcCpuInfo>) -> (r: Vec<CpuInfo>)
    ensures
        cpu_views(r@) == topology_spec(proc_views(parsed_cpu_info@)),
{
    let ghost recs = proc_views(parsed_cpu_info@);
    let mut ids: Vec<usize> = Vec::new();
    let m = parsed_cpu_info.len();
    for i in 0..m
        invariant
            m == parsed_cpu_info@.len(),
            recs == proc_views(parsed_cpu_info@),
            ids@ == core_ids_of(recs.take(i as int)),
    {
        ids.push(parsed_cpu_info[i].core_id);
        assert(ids@ =~= core_ids_of(recs.take(i + 1)));
    }
    assert(recs.take(m as int) == recs);
    dedup(&mut ids);
    let ghost distinct = ids@;
    let keys = sorted_ids(ids);
    proof {
        lemma_is_sorted_spec(distinct, keys@);
    }
    let grouped = group_by_core_id(parsed_cpu_info);
    let mut physical_cores: Vec<CpuInfo> = Vec::new();
    let n = keys.len();
    for i in 0..n
        invariant
            n == keys@.len(),
            keys@ == physical_core_ids(recs),
            forall|k: usize| #[trigger] grouped@.contains_key(k) <==> core_ids_of(recs).contains(k),
            forall|k: usize| #[trigger] grouped@.contains_key(k) ==> proc_views(grouped@[k]@) == group_spec(recs, k),
            physical_cores@.len() == i,
            forall|j: int| 0 <= j < i ==> (#[trigger] physical_cores@[j])@ == core_record(j as usize, group_spec(recs, keys@[j])),
    {
        let k = keys[i];
        proof {
            lemma_physical_core_id_occurs(recs, i as int);
            let g = group_spec(recs, k);
            recs.lemma_filter_contains_rev(|r: ProcRecord| r.core_id == k, g[0]);
            let j = choose|j: int| 0 <= j < recs.len() && #[trigger] recs[j] == g[0];
            assert(core_ids_of(recs)[j] == k);
        }
        let group = grouped.get(&k).unwrap();
        let best = first_lowest_index(group);
        physical_cores.push(CpuInfo {
            id: i,
            proc_cpu_id: group[best].processor,
            thread_count: group.len(),
            name: group[best].name.clone(),
            mhz: group[best].mhz.clone(),
        });
    }
    assert(cpu_views(physical_cores@) =~= topology_spec(recs));
    physical_cores
}

/// The physical cores that the table `proc_cpuinfo` describes.
pub fn parse_cpus_info(proc_cpuinfo: &str) -> (r: Vec<CpuInfo>)
    ensures
        cpu_views(r@) == topology_spec(records_spec(proc_cpuinfo@)),
{
    transform_to_cpu_info(parse_proc_cpu_infos(proc_cpuinfo))
}


/// The value of the first line of `lines` that starts with `key` and has
/// a value; empty where there is none.
pub open spec fn first_property_spec(lines: Seq<Seq<char>>, key: Seq<char>) -> Seq<char>
    decreases lines.len(),
{
    if lines.len() == 0 {
        Seq::empty()
    } else if starts_with_spec(lines[0], key) && field_value(lines[0]) is Some {
        field_value(lines[0])->0
    } else {
        first_property_spec(lines.drop_first(), key)
    }
}

/// The value of the first line of `proc_cpu_info` that starts with
/// `property` and has a value, such as `"8"` for `"siblings"`; empty
/// where there is none.
pub fn get_first_proc_cpuinfo_property(proc_cpu_info: &str, property: &str) -> (r: String)
    ensures
        r@ == first_property_spec(split_spec(proc_cpu_info@, '\n'), property@),
{
    let chars = chars_of(proc_cpu_info);
    let key = chars_of(property);
    let lines = split_on(&chars, '\n');
    let ghost ls = split_spec(proc_cpu_info@, '\n');
    assert(line_views(lines@) =~= ls);
    let n = lines.len();
    let mut i: usize = 0;
    assert(ls.subrange(0, n as int) == ls);
    while i < n
        invariant
            n == lines@.len() == ls.len(),
            ls == line_views(lines@),
            ls == split_spec(proc_cpu_info@, '\n'),
            i <= n,
            key@ == property@,
            first_property_spec(ls.subrange(i as int, n as int), property@) == first_property_spec(ls, property@),
        decreases n - i,
    {
        let ghost rest = ls.subrange(i as int, n as int);
        assert(rest[0] == lines@[i as int]@);
        assert(rest.drop_first() == ls.subrange(i + 1, n as int));
        if starts_with(&lines[i], &key) {
            match field_value_exec(&lines[i]) {
                Some(v) => {
                    return string_from_chars(&v);
                },
                None => {},
            }
        }
        i = i + 1;
    }
    string_from_chars(&Vec::new())
}

/// The processor's physical and logical core counts as its summary fields
/// `cpu cores` and `siblings` give them; `None` for a field that is
/// missing or unreadable.
pub fn get_cores_count(proc_cpuinfo_string: &str) -> (r: (Option<usize>, Option<usize>))
    ensures
        r.0 == parse_usize_spec(first_property_spec(split_spec(proc_cpuinfo_string@, '\n'), "cpu cores"@)),
        r.1 == parse_usize_spec(first_property_spec(split_spec(proc_cpuinfo_string@, '\n'), "siblings"@)),
{
    let physical = chars_of(get_first_proc_cpuinfo_property(proc_cpuinfo_string, "cpu cores").as_str());
    let logical = chars_of(get_first_proc_cpuinfo_property(proc_cpuinfo_string, "siblings").as_str());
    (parse_usize(&physical), parse_usize(&logical))
}

/// The topology that the table `text` describes: its physical cores, and
/// the physical and logical core counts from the summary fields, or where
/// those are missing, the number of physical cores and of logical
/// processors found.
pub open spec fn topology_of(text: Seq<char>, info: CpusInfo) -> bool {
    let lines = split_spec(text, '\n');
    &&& cpu_views(info.cpus@) == topology_spec(records_spec(text))
    &&& info.physical_cores == match parse_usize_spec(first_property_spec(lines, "cpu cores"@)) {
        Some(n) => n,
        None => topology_spec(records_spec(text)).len() as usize,
    }
    &&& info.logical_cores == match parse_usize_spec(first_property_spec(lines, "siblings"@)) {
        Some(n) => n,
        None => records_spec(text).len() as usize,
    }
}

/// Resolves the topology of the processor from the text of its
/// `/proc/cpuinfo`.
pub fn parse_cpus(proc_cpuinfo: &str) -> (r: CpusInfo)
    ensures
        topology_of(proc_cpuinfo@, r),
{
    let records = parse_proc_cpu_infos(proc_cpuinfo);
    let record_count = records.len();
    let cpus = transform_to_cpu_info(records);
    let (physical, logical) = get_cores_count(proc_cpuinfo);
    let physical_cores = match physical {
        Some(n) => n,
        None => cpus.len(),
    };
    let logical_cores = match logical {
        Some(n) => n,
        None => record_count,
    };
    CpusInfo { cpus, physical_cores, logical_cores }
}

/// The lowest logical processor of physical core `physical_core_id`, the
/// one a test of the core is pinned to; `None` where there is no such
/// core.
pub fn get_first_logical_core_id_for(cpus_info: &CpusInfo, physical_core_id: usize) -> (r: Option<usize>)
    ensures
        match r {
            Some(l) => exists|k: int| 0 <= k < cpus_info.cpus@.len() && #[trigger] cpus_info.cpus@[k].id == physical_core_id
                && cpus_info.cpus@[k].proc_cpu_id == l
                && forall|j: int| 0 <= j < k ==> (#[trigger] cpus_info.cpus@[j]).id != physical_core_id,
            None => forall|k: int| 0 <= k < cpus_info.cpus@.len() ==> (#[trigger] cpus_info.cpus@[k]).id != physical_core_id,
        },
{
    let n = cpus_info.cpus.len();
    for k in 0..n
        invariant
            n == cpus_info.cpus@.len(),
            forall|j: int| 0 <= j < k ==> (#[trigger] cpus_info.cpus@[j]).id != physical_core_id,
    {
        if cpus_info.cpus[k].id == physical_core_id {
            return Some(cpus_info.cpus[k].proc_cpu_id);
        }
    }
    None
}

/// The number of physical cores of the processor.
pub fn get_physical_cores(cpus_info: &CpusInfo) -> (r: usize)
    ensures
        r == cpus_info.physical_cores,
{
    cpus_info.physical_cores
}

/// The number of logical processors of the processor.
pub fn get_logical_cores(cpus_info: &CpusInfo) -> (r: usize)
    ensures
        r == cpus_info.logical_cores,
{
    cpus_info.logical_cores
}


proof fn lemma_dedup_len(s: Seq<usize>)
    ensures
        dedup_spec(s).len() <= s.len(),
    decreases s.len(),
{
    if s.len() > 0 {
        lemma_dedup_len(s.drop_last());
    }
}

proof fn lemma_dedup_keeps(s: Seq<usize>, x: usize)
    requires
        s.contains(x),
    ensures
        dedup_spec(s).contains(x),
    decreases s.len(),
{
    let d = dedup_spec(s.drop_last());
    if s.last() == x {
        if !d.contains(x) {
            assert(d.push(x)[d.len() as int] == x);
        }
    } else {
        let j = choose|j: int| 0 <= j < s.len() && #[trigger] s[j] == x;
        assert(s.drop_last()[j] == x);
        lemma_dedup_keeps(s.drop_last(), x);
        if !d.contains(s.last()) {
            let k = choose|k: int| 0 <= k < d.len() && #[trigger] d[k] == x;
            assert(d.push(s.last())[k] == x);
        }
    }
}

/// The group of core id `c` holds exactly the logical processors at the
/// ascending positions `idx`, so it has as many members.
proof fn lemma_group_len(recs: Seq<ProcRecord>, c: usize, idx: Seq<int>)
    requires
        forall|a: int, b: int| 0 <= a < b < idx.len() ==> #[trigger] idx[a] < #[trigger] idx[b],
        forall|a: int| 0 <= a < idx.len() ==> 0 <= #[trigger] idx[a] < recs.len(),
        forall|i: int| 0 <= i < recs.len() ==> ((#[trigger] recs[i]).core_id == c <==> idx.contains(i)),
    ensures
        group_spec(recs, c).len() == idx.len(),
    decreases recs.len(),
{
    let f = |r: ProcRecord| r.core_id == c;
    if recs.len() == 0 {
        if idx.len() > 0 {
            assert(0 <= idx[0] < recs.len());
        }
    } else {
        let last = recs.len() - 1;
        let init = recs.drop_last();
        assert(recs == init.push(recs.last()));
        init.lemma_filter_push(recs.last(), f);
        if recs.last().core_id == c {
            assert(idx.contains(last));
            let p = choose|p: int| 0 <= p < idx.len() && idx[p] == last;
            if p < idx.len() - 1 {
                assert(idx[p] < idx[idx.len() - 1]);
            }
            let rest = idx.drop_last();
            assert forall|i: int| 0 <= i < init.len() implies ((#[trigger] init[i]).core_id == c <==> rest.contains(i)) by {
                assert(init[i] == recs[i]);
                if idx.contains(i) {
                    let q = choose|q: int| 0 <= q < idx.len() && idx[q] == i;
                    assert(q != idx.len() - 1);
                    assert(rest[q] == i);
                }
                if rest.contains(i) {
                    let q = choose|q: int| 0 <= q < rest.len() && rest[q] == i;
                    assert(idx[q] == i);
                }
            }
            lemma_group_len(init, c, rest);
        } else {
            assert forall|a: int| 0 <= a < idx.len() implies 0 <= #[trigger] idx[a] < init.len() by {
                if idx[a] == last {
                    assert(idx.contains(last));
                }
            }
            assert forall|i: int| 0 <= i < init.len() implies ((#[trigger] init[i]).core_id == c <==> idx.contains(i)) by {
                assert(init[i] == recs[i]);
            }
            lemma_group_len(init, c, idx);
        }
    }
}

/// Two logical processors that share a core id, and share it with no
/// other, make one physical core with two threads: both belong to the
/// group of the same physical core, whose thread count is 2.
pub proof fn lemma_siblings_share_a_core(recs: Seq<ProcRecord>, a: int, b: int)
    requires
        recs.len() <= usize::MAX,
        0 <= a < b < recs.len(),
        recs[a].core_id == recs[b].core_id,
        forall|i: int| 0 <= i < recs.len() && i != a && i != b ==> (#[trigger] recs[i]).core_id != recs[a].core_id,
    ensures
        exists|k: int| {
            &&& 0 <= k < topology_spec(recs).len()
            &&& #[trigger] physical_core_ids(recs)[k] == recs[a].core_id
            &&& topology_spec(recs)[k].id == k
            &&& group_spec(recs, physical_core_ids(recs)[k]).contains(recs[a])
            &&& group_spec(recs, physical_core_ids(recs)[k]).contains(recs[b])
            &&& topology_spec(recs)[k].thread_count == 2
        },
{
    broadcast use vstd::seq_lib::group_to_multiset_ensures;
    let c = recs[a].core_id;
    let ids = core_ids_of(recs);
    let d = dedup_spec(ids);
    let keys = physical_core_ids(recs);
    assert(ids[a] == c);
    lemma_dedup_keeps(ids, c);
    crate::core_select::lemma_usize_leq_total();
    d.lemma_sort_by_ensures(usize_leq());
    d.to_multiset_ensures();
    keys.to_multiset_ensures();
    assert(keys.to_multiset().count(c) > 0);
    let k = choose|k: int| 0 <= k < keys.len() && keys[k] == c;
    let f = |r: ProcRecord| r.core_id == c;
    recs.lemma_filter_contains(f, a);
    recs.lemma_filter_contains(f, b);
    let idx = seq![a, b];
    assert forall|i: int| 0 <= i < recs.len() implies ((#[trigger] recs[i]).core_id == c <==> idx.contains(i)) by {
        if i == a {
            assert(idx[0] == a);
        }
        if i == b {
            assert(idx[1] == b);
        }
    }
    lemma_group_len(recs, c, idx);
    assert(topology_spec(recs).len() == keys.len());
    assert(topology_spec(recs)[k] == core_record(k as usize, group_spec(recs, keys[k])));
    assert(group_spec(recs, keys[k]).len() == 2);
    assert(topology_spec(recs)[k].thread_count == 2);
    lemma_dedup_len(ids);
    assert(k < keys.len() <= recs.len());
    assert(topology_spec(recs)[k].id == k);
    assert(group_spec(recs, physical_core_ids(recs)[k]).contains(recs[a]));
}

} // verus!
