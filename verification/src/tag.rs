//! One parsed unit of the format: a tag node with its nesting level, key,
//! optional value and ordered children, together with its serialized and
//! display forms.

use vstd::prelude::*;
use vstd::string::StrSliceExecFns;
use vstd::string::StringExecFns;

use crate::line::decimal;
use crate::line::decimal_string;
use crate::tags::Tags;
use crate::tags::build_forest;

verus! {

/// The mathematical shape of a tag node: level, key, value, and the ordered
/// models of its children.
#[verifier::ext_equal]
pub struct TagModel {
    pub level: nat,
    pub key: Seq<char>,
    pub value: Seq<char>,
    pub children: Seq<TagModel>,
}

/// One line of the format parsed into its structural unit. The children are
/// exactly the contiguous run of following lines strictly deeper than
/// `level`, rebuilt one level down.
pub struct Tag {
    pub level: usize,
    pub key: String,
    pub value: String,
    pub children: Tags,
}

/// The model of a tag node.
pub open spec fn tag_model(t: Tag) -> TagModel
    decreases t,
{
    TagModel {
        level: t.level as nat,
        key: t.key@,
        value: t.value@,
        children: forest_model(t.children.tags@),
    }
}

/// The models of an ordered sequence of sibling tag nodes.
pub open spec fn forest_model(ts: Seq<Tag>) -> Seq<TagModel>
    decreases ts,
{
    if ts.len() == 0 {
        Seq::empty()
    } else {
        seq![tag_model(ts[0])] + forest_model(ts.drop_first())
    }
}

/// `forest_model` maps each tag to its model, position by position.
pub proof fn lemma_forest_model(ts: Seq<Tag>)
    ensures
        forest_model(ts).len() == ts.len(),
        forall|i: int| 0 <= i < ts.len() ==> forest_model(ts)[i] == tag_model(ts[i]),
    decreases ts,
{
    if ts.len() > 0 {
        lemma_forest_model(ts.drop_first());
    }
}

impl View for Tag {
    type V = TagModel;

    open spec fn view(&self) -> TagModel {
        tag_model(*self)
    }
}

impl View for Tags {
    type V = Seq<TagModel>;

    open spec fn view(&self) -> Seq<TagModel> {
        forest_model(self.tags@)
    }
}

/// The serialized line of one node: the decimal level, a space, the key,
/// and, when the value is nonempty, a space and the value.
pub open spec fn line_of(t: TagModel) -> Seq<char> {
    let head = decimal(t.level) + seq![' '] + t.key;
    if t.value.len() == 0 {
        head
    } else {
        head + seq![' '] + t.value
    }
}

/// The serialized lines of one node: its own line, then the lines of its
/// children in order.
pub open spec fn ser_node(t: TagModel) -> Seq<Seq<char>>
    decreases t,
{
    seq![line_of(t)] + ser_forest(t.children)
}

/// The serialized lines of a sequence of sibling nodes, in order.
pub open spec fn ser_forest(ts: Seq<TagModel>) -> Seq<Seq<char>>
    decreases ts,
{
    if ts.len() == 0 {
        Seq::empty()
    } else {
        ser_node(ts[0]) + ser_forest(ts.drop_first())
    }
}

/// Serialization distributes over concatenation of sibling sequences.
pub proof fn lemma_ser_forest_concat(a: Seq<TagModel>, b: Seq<TagModel>)
    ensures
        ser_forest(a + b) == ser_forest(a) + ser_forest(b),
    decreases a,
{
    if a.len() == 0 {
        assert(a + b =~= b);
        assert(ser_forest(a) + ser_forest(b) =~= ser_forest(b));
    } else {
        lemma_ser_forest_concat(a.drop_first(), b);
        assert((a + b).drop_first() =~= a.drop_first() + b);
        assert(ser_forest(a + b) =~= ser_forest(a) + ser_forest(b));
    }
}

/// Serializing one more sibling appends that node's lines.
pub proof fn lemma_ser_forest_snoc(ts: Seq<TagModel>, i: int)
    requires
        0 <= i < ts.len(),
    ensures
        ser_forest(ts.subrange(0, i + 1)) == ser_forest(ts.subrange(0, i)) + ser_node(ts[i]),
{
    lemma_ser_forest_concat(ts.subrange(0, i), seq![ts[i]]);
    assert(ts.subrange(0, i) + seq![ts[i]] =~= ts.subrange(0, i + 1));
    assert(seq![ts[i]].drop_first() =~= Seq::<TagModel>::empty());
    assert(ser_forest(Seq::<TagModel>::empty()) =~= Seq::<Seq<char>>::empty());
    assert(ser_forest(seq![ts[i]]) =~= ser_node(ts[i]));
}

/// The display line of one node: the key in bold markup, then the value.
pub open spec fn html_line_of(t: TagModel) -> Seq<char> {
    "<b>"@ + t.key + "</b> "@ + t.value
}

/// The display lines of one node: its own line, then its children's.
pub open spec fn html_node(t: TagModel) -> Seq<Seq<char>>
    decreases t,
{
    seq![html_line_of(t)] + html_forest(t.children)
}

/// The display lines of a sequence of sibling nodes, in order.
pub open spec fn html_forest(ts: Seq<TagModel>) -> Seq<Seq<char>>
    decreases ts,
{
    if ts.len() == 0 {
        Seq::empty()
    } else {
        html_node(ts[0]) + html_forest(ts.drop_first())
    }
}

/// Display rendering distributes over concatenation of sibling sequences.
pub proof fn lemma_html_forest_concat(a: Seq<TagModel>, b: Seq<TagModel>)
    ensures
        html_forest(a + b) == html_forest(a) + html_forest(b),
    decreases a,
{
    if a.len() == 0 {
        assert(a + b =~= b);
        assert(html_forest(a) + html_forest(b) =~= html_forest(b));
    } else {
        lemma_html_forest_concat(a.drop_first(), b);
        assert((a + b).drop_first() =~= a.drop_first() + b);
        assert(html_forest(a + b) =~= html_forest(a) + html_forest(b));
    }
}

/// Rendering one more sibling appends that node's lines.
pub proof fn lemma_html_forest_snoc(ts: Seq<TagModel>, i: int)
    requires
        0 <= i < ts.len(),
    ensures
        html_forest(ts.subrange(0, i + 1)) == html_forest(ts.subrange(0, i)) + html_node(ts[i]),
{
    lemma_html_forest_concat(ts.subrange(0, i), seq![ts[i]]);
    assert(ts.subrange(0, i) + seq![ts[i]] =~= ts.subrange(0, i + 1));
    assert(seq![ts[i]].drop_first() =~= Seq::<TagModel>::empty());
    assert(html_forest(Seq::<TagModel>::empty()) =~= Seq::<Seq<char>>::empty());
    assert(html_forest(seq![ts[i]]) =~= html_node(ts[i]));
}

/// Append a copy of every line of `src` to `dst`, in order.
pub(crate) fn append_lines(dst: &mut Vec<String>, src: &Vec<String>)
    ensures
        final (dst).deep_view() == old(dst).deep_view() + src.deep_view(),
{
    let ghost base = old(dst).deep_view();
    let ghost added = src.deep_view();
    let n = src.len();
    let mut i: usize = 0;
    while i < n
        invariant
            i <= n,
            n == src@.len(),
            src.deep_view() == added,
            dst.deep_view() == base + added.subrange(0, i as int),
        decreases n - i,
    {
        let ghost prev = dst.deep_view();
        let s = src[i].clone();
        dst.push(s);
        proof {
            assert(added[i as int] == src@[i as int]@);
            assert(dst.deep_view() =~= prev.push(added[i as int]));
            assert(prev.push(added[i as int]) =~= base + added.subrange(0, i + 1));
        }
        i = i + 1;
    }
    proof {
        assert(added.subrange(0, n as int) =~= added);
    }
}

impl Tag {
    /// Build one node at `level` from its key, its value, and the lines of
    /// its body, which are rebuilt one level down as its children.
    pub fn new(level: usize, key: String, value: String, gedcom: &Vec<String>) -> (t: Tag)
        requires
            level + 1 + gedcom@.len() <= usize::MAX,
        ensures
            t@ == (TagModel {
                level: level as nat,
                key: key@,
                value: value@,
                children: build_forest((level + 1) as nat, gedcom.deep_view()),
            }),
    {
        let children = Tags::new(level + 1, gedcom);
        Tag { level, key, value, children }
    }

    /// The serialized lines of this node and, recursively, of its children.
    pub fn to_gedcom_file(&self) -> (lines: Vec<String>)
        ensures
            lines.deep_view() == ser_node(self@),
        decreases *self,
    {
        let mut head = decimal_string(self.level);
        head.append(" ");
        head.append(self.key.as_str());
        if !self.value.as_str().is_empty() {
            head.append(" ");
            head.append(self.value.as_str());
        }
        proof {
            reveal_strlit(" ");
            assert(head@ =~= line_of(self@));
        }
        let mut lines: Vec<String> = Vec::new();
        lines.push(head);
        proof {
            lemma_forest_model(self.children.tags@);
            assert(lines.deep_view() =~= seq![line_of(self@)] + ser_forest(
                self@.children.subrange(0, 0),
            ));
        }
        let n = self.children.tags.len();
        let mut i: usize = 0;
        while i < n
            invariant
                i <= n,
                n == self.children.tags@.len(),
                forest_model(self.children.tags@) == self@.children,
                self@.children.len() == n,
                forall|k: int| 0 <= k < n ==> self@.children[k] == tag_model(
                    self.children.tags@[k],
                ),
                lines.deep_view() == seq![line_of(self@)] + ser_forest(
                    self@.children.subrange(0, i as int),
                ),
            decreases n - i,
        {
            proof {
                assert(decreases_to!(*self => self.children));
                assert(decreases_to!(self.children => self.children.tags));
                assert(decreases_to!(self.children.tags => self.children.tags@[i as int]));
            }
            let child_lines = self.children.tags[i].to_gedcom_file();
            append_lines(&mut lines, &child_lines);
            proof {
                lemma_ser_forest_snoc(self@.children, i as int);
                assert(lines.deep_view() =~= seq![line_of(self@)] + ser_forest(
                    self@.children.subrange(0, i + 1),
                ));
            }
            i = i + 1;
        }
        proof {
            assert(self@.children.subrange(0, n as int) =~= self@.children);
        }
        lines
    }

    /// The display lines of this node and, recursively, of its children.
    pub fn to_decorated_html(&self) -> (lines: Vec<String>)
        ensures
            lines.deep_view() == html_node(self@),
        decreases *self,
    {
        let mut head = String::from_str("<b>");
        head.append(self.key.as_str());
        head.append("</b> ");
        head.append(self.value.as_str());
        proof {
            assert(head@ =~= html_line_of(self@));
        }
        let mut lines: Vec<String> = Vec::new();
        lines.push(head);
        proof {
            lemma_forest_model(self.children.tags@);
            assert(lines.deep_view() =~= seq![html_line_of(self@)] + html_forest(
                self@.children.subrange(0, 0),
            ));
        }
        let n = self.children.tags.len();
        let mut i: usize = 0;
        while i < n
            invariant
                i <= n,
                n == self.children.tags@.len(),
                forest_model(self.children.tags@) == self@.children,
                self@.children.len() == n,
                forall|k: int| 0 <= k < n ==> self@.children[k] == tag_model(
                    self.children.tags@[k],
                ),
                lines.deep_view() == seq![html_line_of(self@)] + html_forest(
                    self@.children.subrange(0, i as int),
                ),
            decreases n - i,
        {
            proof {
                assert(decreases_to!(*self => self.children));
                assert(decreases_to!(self.children => self.children.tags));
                assert(decreases_to!(self.children.tags => self.children.tags@[i as int]));
            }
            let child_lines = self.children.tags[i].to_decorated_html();
            append_lines(&mut lines, &child_lines);
            proof {
                lemma_html_forest_snoc(self@.children, i as int);
                assert(lines.deep_view() =~= seq![html_line_of(self@)] + html_forest(
                    self@.children.subrange(0, i + 1),
                ));
            }
            i = i + 1;
        }
        proof {
            assert(self@.children.subrange(0, n as int) =~= self@.children);
        }
        lines
    }
}

} // verus!
