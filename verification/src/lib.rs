//! A library for the line-oriented genealogical interchange format: lines of
//! the form `level key [value]` are rebuilt into ordered tag trees, and the
//! flat line stream is segmented into records (individuals, families,
//! sources, media objects, repositories) indexed by cross-reference id.

pub mod laws;
pub mod line;
pub mod tag;
pub mod tags;

use vstd::prelude::*;
use vstd::string::StrSliceExecFns;

use crate::line::opens_line;
use crate::line::ends_with;
use crate::line::xref_of;
use crate::line::xref_token;
use crate::line::decimal_string;
use crate::line::line_opens;
use crate::line::str_ends_with;
use crate::line::str_eq;
use crate::tag::TagModel;
use crate::tags::Tags;
use crate::tags::build_forest;
use crate::tags::next_opener;
use crate::tags::lemma_next_opener_is;

verus! {

/// The mathematical shape of a record: its cross-reference id and the model
/// of its level-1 tag tree.
#[verifier::ext_equal]
pub struct RecordModel {
    pub id: Seq<char>,
    pub tags: Seq<TagModel>,
}

/// One record of the format: the cross-reference id parsed from the block's
/// opening line, and the tag tree built from the block one level down.
pub struct Record {
    pub id: String,
    pub tags: Tags,
}

impl View for Record {
    type V = RecordModel;

    open spec fn view(&self) -> RecordModel {
        RecordModel { id: self.id@, tags: self.tags@ }
    }
}

impl DeepView for Record {
    type V = RecordModel;

    open spec fn deep_view(&self) -> RecordModel {
        self.view()
    }
}

/// The record a block of lines denotes: the id between the `@` markers of
/// the opening line (empty for an empty block), and the level-1 tag tree of
/// the whole block. The depth-0 opening line contributes only the id; the
/// level-1 builder passes over it.
pub open spec fn record_of(block: Seq<Seq<char>>) -> RecordModel {
    RecordModel {
        id: if block.len() == 0 {
            Seq::empty()
        } else {
            xref_of(block[0])
        },
        tags: build_forest(1, block),
    }
}

impl Record {
    /// Build a record from the lines of one block.
    pub fn new(gedcom: &Vec<String>) -> (r: Record)
        requires
            gedcom@.len() < usize::MAX,
        ensures
            r@ == record_of(gedcom.deep_view()),
    {
        let id = if gedcom.len() == 0 {
            String::new()
        } else {
            xref_token(gedcom[0].as_str())
        };
        let tags = Tags::new(1, gedcom);
        Record { id, tags }
    }
}

/// A non-fatal anomaly met while loading: either a depth-0 block whose
/// trailing token matches no known record kind, reported with its raw lines,
/// or a line that could not be read from the source.
pub enum Diagnostic {
    UnclassifiedBlock(Vec<String>),
    LineReadFailure(String),
}

/// The mathematical shape of a diagnostic.
pub enum DiagnosticModel {
    Unclassified(Seq<Seq<char>>),
    ReadFailure(Seq<char>),
}

impl View for Diagnostic {
    type V = DiagnosticModel;

    open spec fn view(&self) -> DiagnosticModel {
        match self {
            Diagnostic::UnclassifiedBlock(b) => DiagnosticModel::Unclassified(b.deep_view()),
            Diagnostic::LineReadFailure(s) => DiagnosticModel::ReadFailure(s@),
        }
    }
}

impl DeepView for Diagnostic {
    type V = DiagnosticModel;

    open spec fn deep_view(&self) -> DiagnosticModel {
        self.view()
    }
}

/// The record kinds a depth-0 block can open.
pub enum RecordKind {
    Header,
    Individual,
    Family,
    Source,
    Object,
    Repo,
    Unknown,
}

/// The kind a depth-0 opening line routes to, decided by its trailing token.
pub open spec fn classify(line: Seq<char>) -> RecordKind {
    if ends_with(line, "INDI"@) {
        RecordKind::Individual
    } else if ends_with(line, "FAM"@) {
        RecordKind::Family
    } else if ends_with(line, "SOUR"@) {
        RecordKind::Source
    } else if ends_with(line, "OBJE"@) {
        RecordKind::Object
    } else if ends_with(line, "REPO"@) {
        RecordKind::Repo
    } else if ends_with(line, "HEAD"@) {
        RecordKind::Header
    } else {
        RecordKind::Unknown
    }
}

/// Everything one pass over a line stream yields: the records of each kind
/// in stream order, the header trees in stream order, and the unclassified
/// blocks in stream order.
#[verifier::ext_equal]
pub struct ParseModel {
    pub individuals: Seq<RecordModel>,
    pub families: Seq<RecordModel>,
    pub sources: Seq<RecordModel>,
    pub objects: Seq<RecordModel>,
    pub repos: Seq<RecordModel>,
    pub headers: Seq<Seq<TagModel>>,
    pub unknowns: Seq<Seq<Seq<char>>>,
}

/// The yield of an empty stream.
pub open spec fn parse_empty() -> ParseModel {
    ParseModel {
        individuals: Seq::empty(),
        families: Seq::empty(),
        sources: Seq::empty(),
        objects: Seq::empty(),
        repos: Seq::empty(),
        headers: Seq::empty(),
        unknowns: Seq::empty(),
    }
}

/// `m` with one more block of the given kind put in front of the matching
/// collection. Lines that open no depth-0 block have no classified kind and
/// count as unknown.
pub open spec fn parse_put(m: ParseModel, kind: RecordKind, block: Seq<Seq<char>>) -> ParseModel {
    match kind {
        RecordKind::Individual => ParseModel {
            individuals: seq![record_of(block)] + m.individuals,
            ..m
        },
        RecordKind::Family => ParseModel { families: seq![record_of(block)] + m.families, ..m },
        RecordKind::Source => ParseModel { sources: seq![record_of(block)] + m.sources, ..m },
        RecordKind::Object => ParseModel { objects: seq![record_of(block)] + m.objects, ..m },
        RecordKind::Repo => ParseModel { repos: seq![record_of(block)] + m.repos, ..m },
        RecordKind::Header => ParseModel { headers: seq![build_forest(1, block)] + m.headers, ..m },
        RecordKind::Unknown => ParseModel { unknowns: seq![block] + m.unknowns, ..m },
    }
}

/// What a line stream denotes: the stream is cut at every line that opens a
/// depth-0 block; each piece is routed by the trailing token of its opening
/// line; lines before the first depth-0 opener form an unclassified block.
pub open spec fn parse(lines: Seq<Seq<char>>) -> ParseModel
    decreases lines.len(),
    via parse_decreases
{
    if lines.len() == 0 {
        parse_empty()
    } else {
        let f = next_opener(lines, 0, 1);
        let block = lines.subrange(0, f);
        let rest = parse(lines.subrange(f, lines.len() as int));
        let kind = if opens_line(lines[0], 0) {
            classify(lines[0])
        } else {
            RecordKind::Unknown
        };
        parse_put(rest, kind, block)
    }
}

#[via_fn]
proof fn parse_decreases(lines: Seq<Seq<char>>) {
    if lines.len() > 0 {
        crate::tags::lemma_next_opener(lines, 0, 1);
    }
}

/// The position of the first record whose id is `id`, or the length of the
/// sequence if no id matches.
pub open spec fn first_id(rs: Seq<RecordModel>, id: Seq<char>) -> int
    decreases rs.len(),
{
    if rs.len() == 0 {
        0
    } else if rs[0].id == id {
        0
    } else {
        1 + first_id(rs.drop_first(), id)
    }
}

/// The record a lookup yields: the first record carrying the id, or nothing.
/// Identifiers registered first win; a later record with the same id stays
/// in the collection but is never the lookup result.
pub open spec fn lookup(rs: Seq<RecordModel>, id: Seq<char>) -> Option<RecordModel> {
    if first_id(rs, id) < rs.len() {
        Some(rs[first_id(rs, id)])
    } else {
        None
    }
}

/// `first_id` is the one position before which no id matches and at which
/// the id matches, or the length when nothing matches.
pub proof fn lemma_first_id_is(rs: Seq<RecordModel>, id: Seq<char>, at: int)
    requires
        0 <= at <= rs.len(),
        forall|i: int| 0 <= i < at ==> rs[i].id != id,
        at < rs.len() ==> rs[at].id == id,
    ensures
        first_id(rs, id) == at,
    decreases rs.len(),
{
    if rs.len() > 0 && at > 0 {
        let d = rs.drop_first();
        assert forall|i: int| 0 <= i < at - 1 implies d[i].id != id by {
            assert(d[i] == rs[i + 1]);
        }
        if at - 1 < d.len() {
            assert(d[at - 1] == rs[at]);
        }
        lemma_first_id_is(d, id, at - 1);
    }
}

/// Adding records cannot unseat an already registered id: when `id` is
/// present in `rs`, a lookup after any additions still yields the same
/// record as before.
pub proof fn lemma_first_registration_wins(rs: Seq<RecordModel>, more: Seq<RecordModel>, id: Seq<
    char,
>)
    requires
        lookup(rs, id) is Some,
    ensures
        lookup(rs + more, id) == lookup(rs, id),
{
    let at = first_id(rs, id);
    lemma_first_id_bounds(rs, id);
    assert forall|i: int| 0 <= i < at implies (rs + more)[i].id != id by {
        assert((rs + more)[i] == rs[i]);
    }
    assert((rs + more)[at] == rs[at]);
    lemma_first_id_is(rs + more, id, at);
}

/// Adding two records under one fresh id in turn: the first added record is
/// the lookup result, not the second.
pub proof fn lemma_duplicate_add(rs: Seq<RecordModel>, r1: RecordModel, r2: RecordModel)
    requires
        lookup(rs, r1.id) is None,
        r2.id == r1.id,
    ensures
        lookup(rs.push(r1).push(r2), r1.id) == Some(r1),
{
    lemma_first_id_bounds(rs, r1.id);
    let grown = rs.push(r1).push(r2);
    assert forall|i: int| 0 <= i < rs.len() implies grown[i].id != r1.id by {
        assert(grown[i] == rs[i]);
    }
    assert(grown[rs.len() as int] == r1);
    lemma_first_id_is(grown, r1.id, rs.len() as int);
}

/// `first_id` stays inside the sequence, nothing before it matches, and the
/// position itself matches when it is inside.
pub proof fn lemma_first_id_bounds(rs: Seq<RecordModel>, id: Seq<char>)
    ensures
        0 <= first_id(rs, id) <= rs.len(),
        forall|i: int| 0 <= i < first_id(rs, id) ==> rs[i].id != id,
        first_id(rs, id) < rs.len() ==> rs[first_id(rs, id)].id == id,
    decreases rs.len(),
{
    if rs.len() > 0 && rs[0].id != id {
        let d = rs.drop_first();
        lemma_first_id_bounds(d, id);
        assert forall|i: int| 0 <= i < first_id(rs, id) implies rs[i].id != id by {
            if i > 0 {
                assert(d[i - 1] == rs[i]);
            }
        }
        if first_id(rs, id) < rs.len() {
            assert(d[first_id(rs, id) - 1] == rs[first_id(rs, id)]);
        }
    }
}

/// The whole object graph built from one line stream: one collection per
/// record kind in stream order, and the header tag tree.
pub struct FamilyTree {
    pub individuals: Vec<Record>,
    pub families: Vec<Record>,
    pub sources: Vec<Record>,
    pub objects: Vec<Record>,
    pub repos: Vec<Record>,
    pub tags: Tags,
}

impl FamilyTree {
    /// A tree with every collection empty and an empty header tree.
    pub fn new() -> (t: FamilyTree)
        ensures
            t.individuals.deep_view() == Seq::<RecordModel>::empty(),
            t.families.deep_view() == Seq::<RecordModel>::empty(),
            t.sources.deep_view() == Seq::<RecordModel>::empty(),
            t.objects.deep_view() == Seq::<RecordModel>::empty(),
            t.repos.deep_view() == Seq::<RecordModel>::empty(),
            t.tags@ == Seq::<TagModel>::empty(),
    {
        let t = FamilyTree {
            individuals: Vec::new(),
            families: Vec::new(),
            sources: Vec::new(),
            objects: Vec::new(),
            repos: Vec::new(),
            tags: Tags::new_empty(),
        };
        proof {
            assert(t.individuals.deep_view() =~= Seq::<RecordModel>::empty());
            assert(t.families.deep_view() =~= Seq::<RecordModel>::empty());
            assert(t.sources.deep_view() =~= Seq::<RecordModel>::empty());
            assert(t.objects.deep_view() =~= Seq::<RecordModel>::empty());
            assert(t.repos.deep_view() =~= Seq::<RecordModel>::empty());
        }
        t
    }

    /// Append the record of one block to the individuals.
    pub fn add_individual(&mut self, gedcom: &Vec<String>)
        requires
            gedcom@.len() < usize::MAX,
        ensures
            final (self).individuals.deep_view() == old(self).individuals.deep_view().push(
                record_of(gedcom.deep_view()),
            ),
            final (self).families == old(self).families,
            final (self).sources == old(self).sources,
            final (self).objects == old(self).objects,
            final (self).repos == old(self).repos,
            final (self).tags == old(self).tags,
    {
        let record = Record::new(gedcom);
        self.individuals.push(record);
        proof {
            assert(self.individuals.deep_view() =~= old(self).individuals.deep_view().push(
                record_of(gedcom.deep_view()),
            ));
        }
    }

    /// Append the record of one block to the families.
    pub fn add_family(&mut self, gedcom: &Vec<String>)
        requires
            gedcom@.len() < usize::MAX,
        ensures
            final (self).families.deep_view() == old(self).families.deep_view().push(
                record_of(gedcom.deep_view()),
            ),
            final (self).individuals == old(self).individuals,
            final (self).sources == old(self).sources,
            final (self).objects == old(self).objects,
            final (self).repos == old(self).repos,
            final (self).tags == old(self).tags,
    {
        let record = Record::new(gedcom);
        self.families.push(record);
        proof {
            assert(self.families.deep_view() =~= old(self).families.deep_view().push(
                record_of(gedcom.deep_view()),
            ));
        }
    }

    /// Append the record of one block to the sources.
    pub fn add_source(&mut self, gedcom: &Vec<String>)
        requires
            gedcom@.len() < usize::MAX,
        ensures
            final (self).sources.deep_view() == old(self).sources.deep_view().push(
                record_of(gedcom.deep_view()),
            ),
            final (self).individuals == old(self).individuals,
            final (self).families == old(self).families,
            final (self).objects == old(self).objects,
            final (self).repos == old(self).repos,
            final (self).tags == old(self).tags,
    {
        let record = Record::new(gedcom);
        self.sources.push(record);
        proof {
            assert(self.sources.deep_view() =~= old(self).sources.deep_view().push(
                record_of(gedcom.deep_view()),
            ));
        }
    }

    /// Append the record of one block to the media objects.
    pub fn add_object(&mut self, gedcom: &Vec<String>)
        requires
            gedcom@.len() < usize::MAX,
        ensures
            final (self).objects.deep_view() == old(self).objects.deep_view().push(
                record_of(gedcom.deep_view()),
            ),
            final (self).individuals == old(self).individuals,
            final (self).families == old(self).families,
            final (self).sources == old(self).sources,
            final (self).repos == old(self).repos,
            final (self).tags == old(self).tags,
    {
        let record = Record::new(gedcom);
        self.objects.push(record);
        proof {
            assert(self.objects.deep_view() =~= old(self).objects.deep_view().push(
                record_of(gedcom.deep_view()),
            ));
        }
    }

    /// Append the record of one block to the repositories.
    pub fn add_repo(&mut self, gedcom: &Vec<String>)
        requires
            gedcom@.len() < usize::MAX,
        ensures
            final (self).repos.deep_view() == old(self).repos.deep_view().push(
                record_of(gedcom.deep_view()),
            ),
            final (self).individuals == old(self).individuals,
            final (self).families == old(self).families,
            final (self).sources == old(self).sources,
            final (self).objects == old(self).objects,
            final (self).tags == old(self).tags,
    {
        let record = Record::new(gedcom);
        self.repos.push(record);
        proof {
            assert(self.repos.deep_view() =~= old(self).repos.deep_view().push(
                record_of(gedcom.deep_view()),
            ));
        }
    }

    /// Replace the header tree with the level-1 tree of one block.
    pub fn add_header(&mut self, gedcom: &Vec<String>)
        requires
            gedcom@.len() < usize::MAX,
        ensures
            final (self).tags@ == build_forest(1, gedcom.deep_view()),
            final (self).individuals == old(self).individuals,
            final (self).families == old(self).families,
            final (self).sources == old(self).sources,
            final (self).objects == old(self).objects,
            final (self).repos == old(self).repos,
    {
        self.tags = Tags::new(1, gedcom);
    }

    /// The individual registered under `idx`, or nothing: a lookup miss is
    /// reported, never replaced by an arbitrary record.
    pub fn get_individual(&self, idx: &str) -> (r: Option<&Record>)
        ensures
            match r {
                Some(rec) => lookup(self.individuals.deep_view(), idx@) == Some(rec@),
                None => lookup(self.individuals.deep_view(), idx@) is None,
            },
    {
        find_record(&self.individuals, idx)
    }

    /// The family registered under `idx`, or nothing.
    pub fn get_family(&self, idx: &str) -> (r: Option<&Record>)
        ensures
            match r {
                Some(rec) => lookup(self.families.deep_view(), idx@) == Some(rec@),
                None => lookup(self.families.deep_view(), idx@) is None,
            },
    {
        find_record(&self.families, idx)
    }

    /// The source registered under `idx`, or nothing.
    pub fn get_source(&self, idx: &str) -> (r: Option<&Record>)
        ensures
            match r {
                Some(rec) => lookup(self.sources.deep_view(), idx@) == Some(rec@),
                None => lookup(self.sources.deep_view(), idx@) is None,
            },
    {
        find_record(&self.sources, idx)
    }

    /// The media object registered under `idx`, or nothing.
    pub fn get_object(&self, idx: &str) -> (r: Option<&Record>)
        ensures
            match r {
                Some(rec) => lookup(self.objects.deep_view(), idx@) == Some(rec@),
                None => lookup(self.objects.deep_view(), idx@) is None,
            },
    {
        find_record(&self.objects, idx)
    }
}

/// The first record in `rs` whose id matches `idx`, or nothing.
fn find_record<'a>(rs: &'a Vec<Record>, idx: &str) -> (r: Option<&'a Record>)
    ensures
        match r {
            Some(rec) => lookup(rs.deep_view(), idx@) == Some(rec@),
            None => lookup(rs.deep_view(), idx@) is None,
        },
{
    let n = rs.len();
    let mut i: usize = 0;
    while i < n
        invariant
            i <= n,
            n == rs@.len(),
            forall|k: int| 0 <= k < i ==> rs.deep_view()[k].id != idx@,
        decreases n - i,
    {
        if str_eq(rs[i].id.as_str(), idx) {
            proof {
                lemma_first_id_is(rs.deep_view(), idx@, i as int);
            }
            return Some(&rs[i]);
        }
        i = i + 1;
    }
    proof {
        lemma_first_id_is(rs.deep_view(), idx@, n as int);
    }
    None
}

/// A copy of `lines[start..end]`.
fn copy_range(lines: &Vec<String>, start: usize, end: usize) -> (r: Vec<String>)
    requires
        start <= end <= lines@.len(),
    ensures
        r.deep_view() == lines.deep_view().subrange(start as int, end as int),
{
    let mut r: Vec<String> = Vec::new();
    let mut i = start;
    proof {
        assert(r.deep_view() =~= lines.deep_view().subrange(start as int, start as int));
    }
    while i < end
        invariant
            start <= i <= end,
            end <= lines@.len(),
            r.deep_view() == lines.deep_view().subrange(start as int, i as int),
        decreases end - i,
    {
        let ghost prev = r.deep_view();
        let s = lines[i].clone();
        r.push(s);
        proof {
            assert(r.deep_view() =~= prev.push(lines.deep_view()[i as int]));
            assert(r.deep_view() =~= lines.deep_view().subrange(start as int, i + 1));
        }
        i = i + 1;
    }
    r
}

impl FamilyTree {
    /// Consume a whole line stream: cut it into depth-0 blocks, route every
    /// block to the collection its trailing token names, store the last
    /// header tree, and return one diagnostic for every unclassified block,
    /// in stream order. Malformed content never aborts the pass.
    pub fn load_lines(&mut self, lines: &Vec<String>) -> (diags: Vec<Diagnostic>)
        requires
            lines@.len() < usize::MAX,
        ensures
            ({
                let p = parse(lines.deep_view());
                &&& final (self).individuals.deep_view() == old(self).individuals.deep_view()
                    + p.individuals
                &&& final (self).families.deep_view() == old(self).families.deep_view()
                    + p.families
                &&& final (self).sources.deep_view() == old(self).sources.deep_view() + p.sources
                &&& final (self).objects.deep_view() == old(self).objects.deep_view() + p.objects
                &&& final (self).repos.deep_view() == old(self).repos.deep_view() + p.repos
                &&& final (self).tags@ == if p.headers.len() == 0 {
                    old(self).tags@
                } else {
                    p.headers.last()
                }
                &&& diags.deep_view() == p.unknowns.map_values(
                    |b: Seq<Seq<char>>| DiagnosticModel::Unclassified(b),
                )
            }),
    {
        let ghost all = lines.deep_view();
        let ghost p = parse(all);
        let ghost base_ind = self.individuals.deep_view();
        let ghost base_fam = self.families.deep_view();
        let ghost base_sou = self.sources.deep_view();
        let ghost base_obj = self.objects.deep_view();
        let ghost base_rep = self.repos.deep_view();
        let ghost base_tags = self.tags@;
        let ghost mut done_headers: Seq<Seq<TagModel>> = Seq::empty();
        let ghost mut done_unknowns: Seq<Seq<Seq<char>>> = Seq::empty();
        let mut diags: Vec<Diagnostic> = Vec::new();
        let n = lines.len();
        let zero = decimal_string(0);
        proof {
            assert(all.subrange(0, n as int) =~= all);
            assert(diags.deep_view() =~= done_unknowns.map_values(
                |b: Seq<Seq<char>>| DiagnosticModel::Unclassified(b),
            ));
        }
        let mut i: usize = 0;
        while i < n
            invariant
                i <= n,
                n == all.len(),
                all == lines.deep_view(),
                lines@.len() < usize::MAX,
                zero@ == crate::line::decimal(0),
                p == parse(all),
                self.individuals.deep_view() + parse(all.subrange(i as int, n as int)).individuals
                    =~= base_ind + p.individuals,
                self.families.deep_view() + parse(all.subrange(i as int, n as int)).families
                    =~= base_fam + p.families,
                self.sources.deep_view() + parse(all.subrange(i as int, n as int)).sources
                    =~= base_sou + p.sources,
                self.objects.deep_view() + parse(all.subrange(i as int, n as int)).objects
                    =~= base_obj + p.objects,
                self.repos.deep_view() + parse(all.subrange(i as int, n as int)).repos =~= base_rep
                    + p.repos,
                done_headers + parse(all.subrange(i as int, n as int)).headers =~= p.headers,
                done_headers.len() == 0 ==> self.tags@ == base_tags,
                done_headers.len() > 0 ==> self.tags@ == done_headers.last(),
                done_unknowns + parse(all.subrange(i as int, n as int)).unknowns =~= p.unknowns,
                diags.deep_view() == done_unknowns.map_values(
                    |b: Seq<Seq<char>>| DiagnosticModel::Unclassified(b),
                ),
            decreases n - i,
        {
            let ghost suffix = all.subrange(i as int, n as int);
            let ghost s = parse(suffix);
            // Scan for the line that opens the next depth-0 block.
            let mut j = i + 1;
            loop
                invariant
                    i + 1 <= j <= n,
                    n == all.len(),
                    all == lines.deep_view(),
                    zero@ == crate::line::decimal(0),
                    forall|k: int| i + 1 <= k < j ==> !opens_line(all[k], 0),
                ensures
                    i + 1 <= j <= n,
                    forall|k: int| i + 1 <= k < j ==> !opens_line(all[k], 0),
                    j == n || opens_line(all[j as int], 0),
                decreases n - j,
            {
                if j == n {
                    break ;
                }
                if line_opens(lines[j].as_str(), zero.as_str()) {
                    break ;
                }
                j = j + 1;
            }
            proof {
                assert forall|k: int| 1 <= k < j - i implies !opens_line(suffix[k], 0) by {
                    assert(suffix[k] == all[i + k]);
                }
                if j < n {
                    assert(suffix[j - i] == all[j as int]);
                }
                lemma_next_opener_is(suffix, 0, 1, j - i);
                assert(suffix.subrange(0, j - i) =~= all.subrange(i as int, j as int));
                assert(suffix.subrange(j - i, suffix.len() as int) =~= all.subrange(
                    j as int,
                    n as int,
                ));
                assert(suffix[0] == all[i as int]);
            }
            let ghost block_view = all.subrange(i as int, j as int);
            let block = copy_range(lines, i, j);
            if line_opens(lines[i].as_str(), zero.as_str()) {
                if str_ends_with(lines[i].as_str(), "INDI") {
                    self.add_individual(&block);
                    proof {
                        assert(self.individuals.deep_view() + parse(
                            all.subrange(j as int, n as int),
                        ).individuals =~= base_ind + p.individuals);
                    }
                } else if str_ends_with(lines[i].as_str(), "FAM") {
                    self.add_family(&block);
                    proof {
                        assert(self.families.deep_view() + parse(
                            all.subrange(j as int, n as int),
                        ).families =~= base_fam + p.families);
                    }
                } else if str_ends_with(lines[i].as_str(), "SOUR") {
                    self.add_source(&block);
                    proof {
                        assert(self.sources.deep_view() + parse(
                            all.subrange(j as int, n as int),
                        ).sources =~= base_sou + p.sources);
                    }
                } else if str_ends_with(lines[i].as_str(), "OBJE") {
                    self.add_object(&block);
                    proof {
                        assert(self.objects.deep_view() + parse(
                            all.subrange(j as int, n as int),
                        ).objects =~= base_obj + p.objects);
                    }
                } else if str_ends_with(lines[i].as_str(), "REPO") {
                    self.add_repo(&block);
                    proof {
                        assert(self.repos.deep_view() + parse(
                            all.subrange(j as int, n as int),
                        ).repos =~= base_rep + p.repos);
                    }
                } else if str_ends_with(lines[i].as_str(), "HEAD") {
                    self.add_header(&block);
                    proof {
                        done_headers = done_headers.push(build_forest(1, block_view));
                        assert(done_headers + parse(all.subrange(j as int, n as int)).headers
                            =~= p.headers);
                    }
                } else {
                    let ghost prev_diags = diags.deep_view();
                    diags.push(Diagnostic::UnclassifiedBlock(block));
                    proof {
                        done_unknowns = done_unknowns.push(block_view);
                        assert(done_unknowns + parse(all.subrange(j as int, n as int)).unknowns
                            =~= p.unknowns);
                        assert(diags.deep_view() =~= prev_diags.push(
                            DiagnosticModel::Unclassified(block_view),
                        ));
                        assert(diags.deep_view() =~= done_unknowns.map_values(
                            |b: Seq<Seq<char>>| DiagnosticModel::Unclassified(b),
                        ));
                    }
                }
            } else {
                let ghost prev_diags = diags.deep_view();
                diags.push(Diagnostic::UnclassifiedBlock(block));
                proof {
                    done_unknowns = done_unknowns.push(block_view);
                    assert(done_unknowns + parse(all.subrange(j as int, n as int)).unknowns
                        =~= p.unknowns);
                    assert(diags.deep_view() =~= prev_diags.push(
                        DiagnosticModel::Unclassified(block_view),
                    ));
                    assert(diags.deep_view() =~= done_unknowns.map_values(
                        |b: Seq<Seq<char>>| DiagnosticModel::Unclassified(b),
                    ));
                }
            }
            i = j;
        }
        proof {
            assert(all.subrange(n as int, n as int) =~= Seq::<Seq<char>>::empty());
            assert(parse(Seq::<Seq<char>>::empty()) == parse_empty());
        }
        diags
    }
}

} // verus!
