//! An ordered sequence of sibling tag nodes sharing one nesting level, and
//! the recursive builder that reconstructs it from a block of lines.

use vstd::prelude::*;
use vstd::string::StrSliceExecFns;

use crate::line::key_of;
use crate::line::value_of;
use crate::line::opens_line;
use crate::line::decimal_string;
use crate::line::line_opens;
use crate::line::split_key_value;
use crate::line::str_eq;
use crate::tag::Tag;
use crate::tag::TagModel;
use crate::tag::tag_model;
use crate::tag::forest_model;
use crate::tag::lemma_forest_model;
use crate::tag::ser_forest;
use crate::tag::html_forest;
use crate::tag::lemma_ser_forest_snoc;
use crate::tag::lemma_html_forest_snoc;
use crate::tag::append_lines;

verus! {

/// The ordered collection of sibling tag nodes built from one line block.
pub struct Tags {
    pub tags: Vec<Tag>,
}

/// The position of the first line at or after `from` that opens a sibling at
/// `level`, or `lines.len()` if there is none.
pub open spec fn next_opener(lines: Seq<Seq<char>>, level: nat, from: int) -> int
    decreases lines.len() - from,
{
    if from < 0 || from >= lines.len() {
        lines.len() as int
    } else if opens_line(lines[from], level) {
        from
    } else {
        next_opener(lines, level, from + 1)
    }
}

/// `next_opener` returns the first opener: nothing before it opens, and the
/// returned position (when inside the block) opens at `level`.
pub proof fn lemma_next_opener(lines: Seq<Seq<char>>, level: nat, from: int)
    requires
        0 <= from <= lines.len(),
    ensures
        from <= next_opener(lines, level, from) <= lines.len(),
        forall|i: int| from <= i < next_opener(lines, level, from) ==> !opens_line(
            lines[i],
            level,
        ),
        next_opener(lines, level, from) < lines.len() ==> opens_line(
            lines[next_opener(lines, level, from)],
            level,
        ),
    decreases lines.len() - from,
{
    if from < lines.len() && !opens_line(lines[from], level) {
        lemma_next_opener(lines, level, from + 1);
    }
}

/// `next_opener` is the only position with its characteristic properties.
pub proof fn lemma_next_opener_is(lines: Seq<Seq<char>>, level: nat, from: int, at: int)
    requires
        0 <= from <= at <= lines.len(),
        forall|i: int| from <= i < at ==> !opens_line(lines[i], level),
        at < lines.len() ==> opens_line(lines[at], level),
    ensures
        next_opener(lines, level, from) == at,
    decreases at - from,
{
    if from < at {
        lemma_next_opener_is(lines, level, from + 1, at);
    }
}

/// The tag forest a block of lines denotes at a given level, stated the way
/// the format defines it: the first line that opens a sibling at `level`
/// starts a node whose key and value come from that line and whose children
/// are the following lines up to the next opener, rebuilt one level down;
/// lines before the first opener belong to no node; an opener whose key is
/// empty yields no node.
pub open spec fn build_forest(level: nat, lines: Seq<Seq<char>>) -> Seq<TagModel>
    decreases lines.len(),
    via build_forest_decreases
{
    if lines.len() == 0 {
        Seq::empty()
    } else if !opens_line(lines[0], level) {
        build_forest(level, lines.drop_first())
    } else {
        let body_end = next_opener(lines, level, 1);
        let node = TagModel {
            level,
            key: key_of(lines[0]),
            value: value_of(lines[0]),
            children: build_forest(level + 1, lines.subrange(1, body_end)),
        };
        let rest = build_forest(level, lines.subrange(body_end, lines.len() as int));
        if node.key.len() == 0 {
            rest
        } else {
            seq![node] + rest
        }
    }
}

#[via_fn]
proof fn build_forest_decreases(level: nat, lines: Seq<Seq<char>>) {
    if lines.len() > 0 && opens_line(lines[0], level) {
        lemma_next_opener(lines, level, 1);
    }
}

/// Rebuild the forest for `lines[start..end]` at `level`. The recursion
/// steps to `level + 1` for each node's body and consumes at least one line
/// doing so, which bounds the level arithmetic.
fn build_range(level: usize, lines: &Vec<String>, start: usize, end: usize) -> (r: Vec<Tag>)
    requires
        start <= end <= lines@.len(),
        level + (end - start) <= usize::MAX,
    ensures
        forest_model(r@) == build_forest(
            level as nat,
            lines.deep_view().subrange(start as int, end as int),
        ),
    decreases end - start,
{
    let ghost all = lines.deep_view();
    let ghost lv = all.subrange(start as int, end as int);
    proof {
        assert(forall|k: int| 0 <= k < all.len() ==> all[k] == lines@[k]@);
    }
    if start == end {
        let r: Vec<Tag> = Vec::new();
        proof {
            assert(forest_model(r@) =~= build_forest(level as nat, lv));
        }
        return r;
    }
    let prefix = decimal_string(level);
    if !line_opens(lines[start].as_str(), prefix.as_str()) {
        let r = build_range(level, lines, start + 1, end);
        proof {
            assert(all.subrange(start + 1, end as int) =~= lv.drop_first());
            assert(lv[0] == all[start as int]);
        }
        return r;
    }
    // Scan for the next sibling opener: the lines in between are the body of
    // the node opened at `start`.
    let mut j = start + 1;
    loop
        invariant
            start + 1 <= j <= end,
            end <= lines@.len(),
            all == lines.deep_view(),
            forall|k: int| 0 <= k < all.len() ==> all[k] == lines@[k]@,
            prefix@ == crate::line::decimal(level as nat),
            forall|k: int| start + 1 <= k < j ==> !opens_line(all[k], level as nat),
        ensures
            start + 1 <= j <= end,
            forall|k: int| start + 1 <= k < j ==> !opens_line(all[k], level as nat),
            j == end || opens_line(all[j as int], level as nat),
        decreases end - j,
    {
        if j == end {
            break ;
        }
        if line_opens(lines[j].as_str(), prefix.as_str()) {
            break ;
        }
        j = j + 1;
    }
    proof {
        assert(lv[0] == all[start as int]);
        assert(opens_line(lv[0], level as nat));
        assert forall|i: int| 1 <= i < j - start implies !opens_line(lv[i], level as nat) by {
            assert(lv[i] == all[start + i]);
        }
        if j < end {
            assert(lv[j - start] == all[j as int]);
        }
        lemma_next_opener_is(lv, level as nat, 1, j - start);
    }
    let (key, value) = split_key_value(lines[start].as_str());
    let children = build_range(level + 1, lines, start + 1, j);
    let rest = build_range(level, lines, j, end);
    proof {
        assert(all.subrange(start + 1, j as int) =~= lv.subrange(1, j - start));
        assert(all.subrange(j as int, end as int) =~= lv.subrange(j - start, lv.len() as int));
    }
    if key.as_str().is_empty() {
        proof {
            assert(key_of(lv[0]).len() == 0);
        }
        rest
    } else {
        let ghost rest_view = rest@;
        let tag = Tag { level, key, value, children: Tags { tags: children } };
        let mut out = rest;
        out.insert(0, tag);
        proof {
            assert(out@ =~= seq![tag] + rest_view);
            assert(out@.drop_first() =~= rest_view);
            assert(forest_model(out@) =~= seq![tag_model(tag)] + forest_model(rest_view));
            assert(forest_model(out@) =~= build_forest(level as nat, lv));
        }
        out
    }
}

impl Tags {
    /// Build the ordered sibling sequence that `gedcom` denotes at `level`.
    /// The level bound is forced by the machine: each nesting step adds one
    /// to the level and consumes at least one line.
    pub fn new(level: usize, gedcom: &Vec<String>) -> (r: Tags)
        requires
            level + gedcom@.len() <= usize::MAX,
        ensures
            r@ == build_forest(level as nat, gedcom.deep_view()),
    {
        let n = gedcom.len();
        let tags = build_range(level, gedcom, 0, n);
        proof {
            assert(gedcom.deep_view().subrange(0, n as int) =~= gedcom.deep_view());
        }
        Tags { tags }
    }

    /// An empty collection of tags.
    pub fn new_empty() -> (r: Tags)
        ensures
            r@ == Seq::<TagModel>::empty(),
    {
        Tags { tags: Vec::new() }
    }

    /// The serialized lines of every tag in order, each followed by its
    /// subtree.
    pub fn to_gedcom_file(&self) -> (lines: Vec<String>)
        ensures
            lines.deep_view() == ser_forest(self@),
    {
        let mut lines: Vec<String> = Vec::new();
        let n = self.tags.len();
        proof {
            lemma_forest_model(self.tags@);
            assert(lines.deep_view() =~= ser_forest(self@.subrange(0, 0)));
        }
        let mut i: usize = 0;
        while i < n
            invariant
                i <= n,
                n == self.tags@.len(),
                forest_model(self.tags@) == self@,
                self@.len() == n,
                forall|k: int| 0 <= k < n ==> self@[k] == tag_model(self.tags@[k]),
                lines.deep_view() == ser_forest(self@.subrange(0, i as int)),
            decreases n - i,
        {
            let child_lines = self.tags[i].to_gedcom_file();
            append_lines(&mut lines, &child_lines);
            proof {
                lemma_ser_forest_snoc(self@, i as int);
                assert(lines.deep_view() =~= ser_forest(self@.subrange(0, i + 1)));
            }
            i = i + 1;
        }
        proof {
            assert(self@.subrange(0, n as int) =~= self@);
        }
        lines
    }

    /// The display lines of every tag in order, each followed by its
    /// subtree.
    pub fn to_decorated_html(&self) -> (lines: Vec<String>)
        ensures
            lines.deep_view() == html_forest(self@),
    {
        let mut lines: Vec<String> = Vec::new();
        let n = self.tags.len();
        proof {
            lemma_forest_model(self.tags@);
            assert(lines.deep_view() =~= html_forest(self@.subrange(0, 0)));
        }
        let mut i: usize = 0;
        while i < n
            invariant
                i <= n,
                n == self.tags@.len(),
                forest_model(self.tags@) == self@,
                self@.len() == n,
                forall|k: int| 0 <= k < n ==> self@[k] == tag_model(self.tags@[k]),
                lines.deep_view() == html_forest(self@.subrange(0, i as int)),
            decreases n - i,
        {
            let child_lines = self.tags[i].to_decorated_html();
            append_lines(&mut lines, &child_lines);
            proof {
                lemma_html_forest_snoc(self@, i as int);
                assert(lines.deep_view() =~= html_forest(self@.subrange(0, i + 1)));
            }
            i = i + 1;
        }
        proof {
            assert(self@.subrange(0, n as int) =~= self@);
        }
        lines
    }

    /// The first tag whose key matches, or nothing when no key matches: a
    /// missing key is reported, never replaced by an arbitrary tag.
    pub fn find_one(&self, key: &str) -> (r: Option<&Tag>)
        ensures
            match r {
                Some(t) => first_key(self@, key@) < self@.len() && t@ == self@[first_key(
                    self@,
                    key@,
                )],
                None => first_key(self@, key@) == self@.len(),
            },
    {
        let n = self.tags.len();
        proof {
            lemma_forest_model(self.tags@);
        }
        let mut i: usize = 0;
        while i < n
            invariant
                i <= n,
                n == self.tags@.len(),
                forest_model(self.tags@) == self@,
                self@.len() == n,
                forall|k: int| 0 <= k < n ==> self@[k] == tag_model(self.tags@[k]),
                forall|k: int| 0 <= k < i ==> self@[k].key != key@,
            decreases n - i,
        {
            if str_eq(self.tags[i].key.as_str(), key) {
                proof {
                    lemma_first_key_is(self@, key@, i as int);
                }
                return Some(&self.tags[i]);
            }
            i = i + 1;
        }
        proof {
            lemma_first_key_is(self@, key@, n as int);
        }
        None
    }
}

/// The position of the first tag model whose key is `key`, or the length of
/// the sequence if no key matches.
pub open spec fn first_key(ts: Seq<TagModel>, key: Seq<char>) -> int
    decreases ts.len(),
{
    if ts.len() == 0 {
        0
    } else if ts[0].key == key {
        0
    } else {
        1 + first_key(ts.drop_first(), key)
    }
}

/// `first_key` is the one position before which no key matches and at which
/// the key matches, or the length when nothing matches.
pub proof fn lemma_first_key_is(ts: Seq<TagModel>, key: Seq<char>, at: int)
    requires
        0 <= at <= ts.len(),
        forall|i: int| 0 <= i < at ==> ts[i].key != key,
        at < ts.len() ==> ts[at].key == key,
    ensures
        first_key(ts, key) == at,
    decreases ts.len(),
{
    if ts.len() > 0 && at > 0 {
        let d = ts.drop_first();
        assert forall|i: int| 0 <= i < at - 1 implies d[i].key != key by {
            assert(d[i] == ts[i + 1]);
        }
        if at - 1 < d.len() {
            assert(d[at - 1] == ts[at]);
        }
        lemma_first_key_is(d, key, at - 1);
    }
}

} // verus!
