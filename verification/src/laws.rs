//! The laws the builder and the dispatcher obey: node counting, line
//! conservation, the serialize/rebuild round trip, idempotence of
//! rebuilding, and block classification.

use vstd::prelude::*;

use crate::line::is_digit;
use crate::line::decimal;
use crate::line::first_at;
use crate::line::lemma_first_at_is;
use crate::line::key_of;
use crate::line::value_of;
use crate::line::opens_line;
use crate::tag::TagModel;
use crate::tag::line_of;
use crate::tag::ser_node;
use crate::tag::ser_forest;
use crate::tags::build_forest;
use crate::tags::next_opener;
use crate::tags::lemma_next_opener_is;
use crate::parse;
use crate::parse_empty;
use crate::parse_put;
use crate::classify;

verus! {

/// A node is well formed at `level` when it sits at that level, the level is
/// a single decimal digit, its key is a nonempty token without spaces, and
/// its children are well formed one level down. These are exactly the trees
/// whose serialized lines are free of anomalies.
pub open spec fn wf_node(level: nat, t: TagModel) -> bool
    decreases t,
{
    &&& t.level == level
    &&& level <= 9
    &&& t.key.len() > 0
    &&& (forall|i: int| 0 <= i < t.key.len() ==> t.key[i] != ' ')
    &&& wf_forest(level + 1, t.children)
}

/// Every node of the forest is well formed at `level`.
pub open spec fn wf_forest(level: nat, ts: Seq<TagModel>) -> bool
    decreases ts,
{
    if ts.len() == 0 {
        true
    } else {
        wf_node(level, ts[0]) && wf_forest(level, ts.drop_first())
    }
}

/// What well-formedness of a nonempty forest gives for its first node.
pub proof fn lemma_wf_forest_parts(level: nat, ts: Seq<TagModel>)
    requires
        wf_forest(level, ts),
        ts.len() > 0,
    ensures
        wf_node(level, ts[0]),
        wf_forest(level, ts.drop_first()),
        ts[0].level == level,
        level <= 9,
        ts[0].key.len() > 0,
        forall|i: int| 0 <= i < ts[0].key.len() ==> ts[0].key[i] != ' ',
        wf_forest(level + 1, ts[0].children),
{
    reveal_with_fuel(wf_forest, 2);
    reveal_with_fuel(wf_node, 2);
}

/// The number of lines a node carries: its own and its descendants'.
pub open spec fn node_lines(t: TagModel) -> nat
    decreases t,
{
    1 + forest_lines(t.children)
}

/// The number of lines a forest carries.
pub open spec fn forest_lines(ts: Seq<TagModel>) -> nat
    decreases ts,
{
    if ts.len() == 0 {
        0
    } else {
        node_lines(ts[0]) + forest_lines(ts.drop_first())
    }
}

/// The nesting depth below a node, the node itself included.
pub open spec fn node_depth(t: TagModel) -> nat
    decreases t,
{
    1 + forest_depth(t.children)
}

/// The nesting depth of a forest: zero when empty, else the deepest node.
pub open spec fn forest_depth(ts: Seq<TagModel>) -> nat
    decreases ts,
{
    if ts.len() == 0 {
        0
    } else {
        let hd = node_depth(ts[0]);
        let tl = forest_depth(ts.drop_first());
        if hd >= tl {
            hd
        } else {
            tl
        }
    }
}

/// The number of lines of a block that open a sibling at `level`.
pub open spec fn count_openers(lines: Seq<Seq<char>>, level: nat) -> nat
    decreases lines.len(),
{
    if lines.len() == 0 {
        0
    } else {
        (if opens_line(lines[0], level) {
            1nat
        } else {
            0nat
        }) + count_openers(lines.drop_first(), level)
    }
}

/// Opener counting splits at any cut of the block.
pub proof fn lemma_count_split(lines: Seq<Seq<char>>, level: nat, mid: int)
    requires
        0 <= mid <= lines.len(),
    ensures
        count_openers(lines, level) == count_openers(lines.subrange(0, mid), level)
            + count_openers(lines.subrange(mid, lines.len() as int), level),
    decreases mid,
{
    if mid == 0 {
        assert(lines.subrange(0, 0) =~= Seq::<Seq<char>>::empty());
        assert(lines.subrange(0, lines.len() as int) =~= lines);
    } else {
        let d = lines.drop_first();
        lemma_count_split(d, level, mid - 1);
        assert(lines.subrange(0, mid).drop_first() =~= d.subrange(0, mid - 1));
        assert(lines.subrange(mid, lines.len() as int) =~= d.subrange(mid - 1, d.len() as int));
        assert(lines.subrange(0, mid)[0] == lines[0]);
    }
}

/// A block without openers counts zero.
pub proof fn lemma_count_zero(lines: Seq<Seq<char>>, level: nat)
    requires
        forall|i: int| 0 <= i < lines.len() ==> !opens_line(lines[i], level),
    ensures
        count_openers(lines, level) == 0,
    decreases lines.len(),
{
    if lines.len() > 0 {
        let d = lines.drop_first();
        assert forall|i: int| 0 <= i < d.len() implies !opens_line(d[i], level) by {
            assert(d[i] == lines[i + 1]);
        }
        lemma_count_zero(d, level);
    }
}

/// The builder produces exactly one node per sibling-opening line, for any
/// block in which every opening line carries a nonempty key.
pub proof fn lemma_build_count(level: nat, lines: Seq<Seq<char>>)
    requires
        forall|i: int|
            0 <= i < lines.len() && opens_line(lines[i], level) ==> key_of(lines[i]).len() > 0,
    ensures
        build_forest(level, lines).len() == count_openers(lines, level),
    decreases lines.len(),
{
    if lines.len() == 0 {
    } else if !opens_line(lines[0], level) {
        let d = lines.drop_first();
        assert forall|i: int|
            0 <= i < d.len() && opens_line(d[i], level) implies key_of(d[i]).len() > 0 by {
            assert(d[i] == lines[i + 1]);
        }
        lemma_build_count(level, d);
    } else {
        let body_end = next_opener(lines, level, 1);
        crate::tags::lemma_next_opener(lines, level, 1);
        let body = lines.subrange(1, body_end);
        let rest = lines.subrange(body_end, lines.len() as int);
        assert forall|i: int|
            0 <= i < rest.len() && opens_line(rest[i], level) implies key_of(rest[i]).len()
            > 0 by {
            assert(rest[i] == lines[body_end + i]);
        }
        lemma_build_count(level, rest);
        lemma_count_split(lines, level, body_end);
        assert forall|i: int|
            0 <= i < lines.subrange(0, body_end).len() && i >= 1 implies !opens_line(
            lines.subrange(0, body_end)[i],
            level,
        ) by {
            assert(lines.subrange(0, body_end)[i] == lines[i]);
        }
        let head = lines.subrange(0, body_end);
        assert forall|i: int| 0 <= i < head.drop_first().len() implies !opens_line(
            head.drop_first()[i],
            level,
        ) by {
            assert(head.drop_first()[i] == lines[i + 1]);
        }
        lemma_count_zero(head.drop_first(), level);
        assert(head[0] == lines[0]);
        assert(count_openers(head, level) == 1);
        assert(key_of(lines[0]).len() > 0);
        assert(build_forest(level, lines).len() == 1 + build_forest(level, rest).len());
    }
}

/// The serialized line of a well-formed node opens a sibling exactly at the
/// node's own level, and parsing it back recovers the node's key and value.
pub proof fn lemma_line_tokens(t: TagModel)
    requires
        t.level <= 9,
        t.key.len() > 0,
        forall|i: int| 0 <= i < t.key.len() ==> t.key[i] != ' ',
    ensures
        opens_line(line_of(t), t.level),
        key_of(line_of(t)) == t.key,
        value_of(line_of(t)) == t.value,
        forall|lv: nat| lv <= 9 && lv != t.level ==> !opens_line(line_of(t), lv),
{
    let line = line_of(t);
    let d = decimal(t.level);
    assert(d =~= seq![crate::line::digit_char(t.level)]);
    assert(line[0] == crate::line::digit_char(t.level));
    assert(line[1] == ' ');
    assert(line.len() >= 3);
    // The line opens at the node's level: the digit, then a space boundary.
    assert(line.subrange(0, 1) =~= d);
    assert(!is_digit(' '));
    assert(opens_line(line, t.level));
    // The first space after the key offset ends the key.
    let sp = 2 + t.key.len() as int;
    assert forall|i: int| 2 <= i < sp implies line[i] != ' ' by {
        assert(line[i] == t.key[i - 2]);
    }
    if t.value.len() == 0 {
        assert(line.len() == sp);
        lemma_first_at_is(line, ' ', 2, sp);
    } else {
        assert(line[sp] == ' ');
        lemma_first_at_is(line, ' ', 2, sp);
    }
    assert(first_at(line, ' ', 2) == sp);
    assert(key_of(line) =~= t.key);
    if t.value.len() == 0 {
        assert(value_of(line) =~= t.value);
    } else {
        assert(value_of(line) =~= line.subrange(sp + 1, line.len() as int));
        assert forall|i: int| 0 <= i < t.value.len() implies line[sp + 1 + i] == t.value[i] by {}
        assert(value_of(line) =~= t.value);
    }
    // At any other single-digit level the first character differs.
    assert forall|lv: nat| lv <= 9 && lv != t.level implies !opens_line(line, lv) by {
        let dl = decimal(lv);
        assert(dl =~= seq![crate::line::digit_char(lv)]);
        if opens_line(line, lv) {
            assert(line.subrange(0, 1) == dl);
            assert(line[0] == crate::line::digit_char(lv));
        }
    }
}

/// No serialized line of a well-formed forest opens a sibling at a level
/// shallower than the forest's own.
pub proof fn lemma_ser_forest_no_open(level: nat, ts: Seq<TagModel>, target: nat)
    requires
        wf_forest(level, ts),
        target < level,
        target <= 9,
    ensures
        forall|k: int| 0 <= k < ser_forest(ts).len() ==> !opens_line(ser_forest(ts)[k], target),
    decreases ts,
{
    if ts.len() > 0 {
        lemma_wf_forest_parts(level, ts);
        lemma_ser_node_no_open(level, ts[0], target);
        lemma_ser_forest_no_open(level, ts.drop_first(), target);
        assert forall|k: int| 0 <= k < ser_forest(ts).len() implies !opens_line(
            ser_forest(ts)[k],
            target,
        ) by {
            if k < ser_node(ts[0]).len() {
                assert(ser_forest(ts)[k] == ser_node(ts[0])[k]);
            } else {
                assert(ser_forest(ts)[k] == ser_forest(ts.drop_first())[k - ser_node(
                    ts[0],
                ).len()]);
            }
        }
    }
}

/// No serialized line of a well-formed node opens a sibling at a level
/// shallower than the node's own.
pub proof fn lemma_ser_node_no_open(level: nat, t: TagModel, target: nat)
    requires
        wf_node(level, t),
        target < level,
        target <= 9,
    ensures
        forall|k: int| 0 <= k < ser_node(t).len() ==> !opens_line(ser_node(t)[k], target),
    decreases t,
{
    reveal_with_fuel(wf_node, 2);
    lemma_line_tokens(t);
    lemma_ser_forest_no_open(level + 1, t.children, target);
    assert forall|k: int| 0 <= k < ser_node(t).len() implies !opens_line(
        ser_node(t)[k],
        target,
    ) by {
        if k == 0 {
            assert(ser_node(t)[0] == line_of(t));
        } else {
            assert(ser_node(t)[k] == ser_forest(t.children)[k - 1]);
        }
    }
}

/// A forest and its serialization carry the same number of lines.
pub proof fn lemma_ser_forest_len(ts: Seq<TagModel>)
    ensures
        ser_forest(ts).len() == forest_lines(ts),
    decreases ts,
{
    if ts.len() > 0 {
        lemma_ser_node_len(ts[0]);
        lemma_ser_forest_len(ts.drop_first());
    }
}

/// A node and its serialization carry the same number of lines.
pub proof fn lemma_ser_node_len(t: TagModel)
    ensures
        ser_node(t).len() == node_lines(t),
    decreases t,
{
    lemma_ser_forest_len(t.children);
}

/// Round trip: rebuilding a well-formed forest from its own serialized
/// lines yields the same forest — same keys, values and child order.
pub proof fn lemma_round_trip(level: nat, ts: Seq<TagModel>)
    requires
        wf_forest(level, ts),
    ensures
        build_forest(level, ser_forest(ts)) == ts,
    decreases ser_forest(ts).len(), 0nat,
{
    if ts.len() == 0 {
        assert(build_forest(level, ser_forest(ts)) =~= ts);
    } else {
        let t = ts[0];
        lemma_wf_forest_parts(level, ts);
        let lines = ser_forest(ts);
        let serc = ser_forest(t.children);
        let serr = ser_forest(ts.drop_first());
        assert(lines == ser_node(t) + serr);
        assert(ser_node(t) == seq![line_of(t)] + serc);
        assert(lines =~= seq![line_of(t)] + serc + serr);
        lemma_line_tokens(t);
        assert(lines[0] == line_of(t));
        assert(opens_line(lines[0], level));
        // Nothing inside the children's serialization opens at this level,
        // so the body of the first node runs exactly to the next sibling.
        lemma_ser_forest_no_open(level + 1, t.children, level);
        assert forall|k: int| 1 <= k < 1 + serc.len() implies !opens_line(lines[k], level) by {
            assert(lines[k] == serc[k - 1]);
        }
        let cut = 1 + serc.len() as int;
        if ts.drop_first().len() > 0 {
            let t2 = ts.drop_first()[0];
            lemma_wf_forest_parts(level, ts.drop_first());
            lemma_line_tokens(t2);
            assert(serr == ser_node(t2) + ser_forest(ts.drop_first().drop_first()));
            assert(ser_node(t2) == seq![line_of(t2)] + ser_forest(t2.children));
            assert(serr[0] == line_of(t2));
            assert(lines[cut] == serr[0]);
            assert(opens_line(lines[cut], level));
        } else {
            assert(serr =~= Seq::<Seq<char>>::empty());
            assert(cut == lines.len());
        }
        lemma_next_opener_is(lines, level, 1, cut);
        assert(lines.subrange(1, cut) =~= serc);
        assert(lines.subrange(cut, lines.len() as int) =~= serr);
        lemma_ser_node_len(t);
        lemma_round_trip(level + 1, t.children);
        lemma_round_trip(level, ts.drop_first());
        assert(build_forest(level, lines) =~= ts);
    }
}

/// Rebuilding a well-formed forest from its serialization is exact: one
/// node per opening line, and every serialized line is accounted for by the
/// rebuilt nodes.
pub proof fn lemma_builder_exact(level: nat, ts: Seq<TagModel>)
    requires
        wf_forest(level, ts),
    ensures
        build_forest(level, ser_forest(ts)) == ts,
        count_openers(ser_forest(ts), level) == ts.len(),
        forest_lines(build_forest(level, ser_forest(ts))) == ser_forest(ts).len(),
    decreases ts,
{
    lemma_round_trip(level, ts);
    lemma_ser_forest_len(ts);
    if ts.len() > 0 {
        let t = ts[0];
        lemma_wf_forest_parts(level, ts);
        lemma_line_tokens(t);
        lemma_ser_forest_no_open(level + 1, t.children, level);
        lemma_builder_exact(level, ts.drop_first());
        let lines = ser_forest(ts);
        let serc = ser_forest(t.children);
        let serr = ser_forest(ts.drop_first());
        assert(lines == ser_node(t) + serr);
        assert(ser_node(t) == seq![line_of(t)] + serc);
        assert(lines =~= seq![line_of(t)] + serc + serr);
        lemma_count_split(lines, level, 1);
        lemma_count_split(lines.subrange(1, lines.len() as int), level, serc.len() as int);
        assert(lines.subrange(1, lines.len() as int).subrange(0, serc.len() as int) =~= serc);
        assert(lines.subrange(1, lines.len() as int).subrange(
            serc.len() as int,
            lines.len() - 1,
        ) =~= serr);
        lemma_count_zero(serc, level);
        assert(lines.subrange(0, 1)[0] == line_of(t));
        assert(count_openers(lines.subrange(0, 1), level) == 1);
    }
}

/// Rebuilding is idempotent: serializing what the builder produced and
/// building again yields the same forest, for any block whose rebuilt tree
/// keeps to single-digit levels.
pub proof fn lemma_build_idempotent(level: nat, lines: Seq<Seq<char>>)
    requires
        level + forest_depth(build_forest(level, lines)) <= 10,
    ensures
        build_forest(level, ser_forest(build_forest(level, lines))) == build_forest(level, lines),
{
    lemma_build_wf(level, lines);
    lemma_round_trip(level, build_forest(level, lines));
}

/// Whatever block it is given, the builder produces a well-formed forest,
/// provided the rebuilt tree keeps to single-digit levels: keys are nonempty
/// and space-free by construction, and each node sits at the level it was
/// built for.
pub proof fn lemma_build_wf(level: nat, lines: Seq<Seq<char>>)
    requires
        level + forest_depth(build_forest(level, lines)) <= 10,
    ensures
        wf_forest(level, build_forest(level, lines)),
    decreases lines.len(),
{
    if lines.len() == 0 {
    } else if !opens_line(lines[0], level) {
        lemma_build_wf(level, lines.drop_first());
    } else {
        let body_end = next_opener(lines, level, 1);
        crate::tags::lemma_next_opener(lines, level, 1);
        let body = lines.subrange(1, body_end);
        let rest = lines.subrange(body_end, lines.len() as int);
        let key = key_of(lines[0]);
        let built = build_forest(level, lines);
        if key.len() == 0 {
            assert(built == build_forest(level, rest));
            lemma_build_wf(level, rest);
        } else {
            let node = TagModel {
                level,
                key,
                value: value_of(lines[0]),
                children: build_forest((level + 1) as nat, body),
            };
            assert(built =~= seq![node] + build_forest(level, rest));
            lemma_forest_depth_parts(built);
            assert(built[0] == node);
            assert(built.drop_first() =~= build_forest(level, rest));
            assert(forest_depth(built) >= 1 + forest_depth(build_forest((level + 1) as nat, body)));
            assert(forest_depth(built) >= forest_depth(build_forest(level, rest)));
            lemma_build_wf(level + 1, body);
            lemma_build_wf(level, rest);
            // The key runs from the key offset to the first space, so it
            // holds no space.
            crate::line::lemma_first_at(lines[0], ' ', 2);
            assert(wf_node(level, node));
            assert(wf_forest(level, built));
        }
    }
}

/// A nonempty forest is at least one level deep, and deeper than both the
/// children of its first node and its remaining nodes.
pub proof fn lemma_forest_depth_parts(ts: Seq<TagModel>)
    requires
        ts.len() > 0,
    ensures
        forest_depth(ts) >= 1 + forest_depth(ts[0].children),
        forest_depth(ts) >= forest_depth(ts.drop_first()),
{
    assert(node_depth(ts[0]) == 1 + forest_depth(ts[0].children));
}

/// Classification: a stream holding one depth-0 block routes that block by
/// the trailing token of its opening line — to the individuals, families,
/// sources, objects, repositories or header when the token is the matching
/// kind's, and to the diagnostics, with no record stored, otherwise.
pub proof fn lemma_classification(lines: Seq<Seq<char>>)
    requires
        lines.len() > 0,
        opens_line(lines[0], 0),
        forall|i: int| 1 <= i < lines.len() ==> !opens_line(lines[i], 0),
    ensures
        parse(lines) == parse_put(parse_empty(), classify(lines[0]), lines),
{
    lemma_next_opener_is(lines, 0, 1, lines.len() as int);
    assert(lines.subrange(0, lines.len() as int) =~= lines);
    assert(lines.subrange(lines.len() as int, lines.len() as int) =~= Seq::<Seq<char>>::empty());
    assert(parse(lines.subrange(lines.len() as int, lines.len() as int)) == parse_empty());
}

} // verus!
