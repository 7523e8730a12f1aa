//! Elements as they are written: trees of text and tags, and where the passes
//! find their ends.

use vstd::prelude::*;
use vstd::utf8::is_ascii_chars;

use crate::chars::{ends_with, is_alnum, is_space, law_without_tail, CharSet};
use crate::edit::{law_spliced, moved, outermost, sorted, EditView, Order};
use crate::instance_map::{binding, EntryView, InstanceMapView};
use crate::jsx::{
    closes_at, continues_name, is_self_closing, is_tag, is_tag_span, lemma_no_tag_before,
    lemma_tag_stands, lemma_tag_step, opens_at, subtree_end, top_level_function,
};
use crate::replace::{
    component_for, element_end, empty_plan, made, outcome, replacements, with_removals,
    CandidateView, Plan,
};
use crate::text::{
    cut, law_ascii_byte_is_char, law_cut_between, lemma_ascii_text, lemma_utf8_concat,
    lemma_utf8_len, occurs_at, utf8,
};

verus! {

/// What stands in the body of an element.
pub enum Node {
    /// Text without tags.
    Text(Seq<char>),
    /// A tag that closes itself.
    Leaf { name: Seq<char>, attrs: Seq<char> },
    /// An opening tag, what stands behind it, and its closing tag.
    Element { name: Seq<char>, attrs: Seq<char>, children: Seq<Node> },
}

/// An opening tag; with a slash it closes itself.
pub open spec fn opening(name: Seq<char>, attrs: Seq<char>, slash: bool) -> Seq<char> {
    "<"@ + name + attrs + (if slash {
        "/"@
    } else {
        Seq::empty()
    }) + ">"@
}

/// A closing tag.
pub open spec fn closing(name: Seq<char>) -> Seq<char> {
    "</"@ + name + ">"@
}

/// How a node is written.
pub open spec fn written(node: Node) -> Seq<char>
    decreases node, 0nat,
{
    match node {
        Node::Text(t) => t,
        Node::Leaf { name, attrs } => opening(name, attrs, true),
        Node::Element { name, attrs, children } => opening(name, attrs, false) + all_written(
            children,
            children.len(),
        ) + closing(name),
    }
}

/// How the first `n` nodes are written.
pub open spec fn all_written(l: Seq<Node>, n: nat) -> Seq<char>
    decreases l, n,
{
    if n == 0 || n > l.len() {
        Seq::empty()
    } else {
        all_written(l, (n - 1) as nat) + written(l[n - 1])
    }
}

/// A character of the name of a tag.
pub open spec fn is_name_char(c: char) -> bool {
    is_alnum(c) || c == '_' || c == '-'
}

/// The name of a tag.
pub open spec fn is_name(s: Seq<char>) -> bool {
    s.len() > 0 && forall|i: int| 0 <= i < s.len() ==> is_name_char(#[trigger] s[i])
}

/// What can stand behind the name of a tag: it does not go on with the name and
/// holds no angle bracket.
pub open spec fn is_behind_name(attrs: Seq<char>) -> bool {
    &&& attrs.len() > 0 ==> !is_name_char(attrs[0])
    &&& !attrs.contains('<')
    &&& !attrs.contains('>')
}

/// A node that is what it is written as: its text holds no tag, and an opening
/// tag that has a closing one does not end with a slash.
pub open spec fn is_proper(node: Node) -> bool
    decreases node, 0nat,
{
    match node {
        Node::Text(t) => !t.contains('<'),
        Node::Leaf { name, attrs } => is_name(name) && is_behind_name(attrs),
        Node::Element { name, attrs, children } => {
            &&& is_name(name)
            &&& is_behind_name(attrs)
            &&& attrs.len() > 0 ==> attrs.last() != '/' && !is_space(attrs.last())
            &&& all_proper(children, children.len())
        },
    }
}

/// The first `n` nodes are proper.
pub open spec fn all_proper(l: Seq<Node>, n: nat) -> bool
    decreases l, n,
{
    n == 0 || n > l.len() || (all_proper(l, (n - 1) as nat) && is_proper(l[n - 1]))
}

// ---------------------------------------------------------------------------
// Bytes of names and tags
// ---------------------------------------------------------------------------

proof fn lemma_name_bytes(name: Seq<char>)
    requires
        is_name(name),
    ensures
        utf8(name).len() == name.len(),
        forall|i: int| 0 <= i < name.len() ==> #[trigger] utf8(name)[i] == name[i] as u8,
        forall|i: int| 0 <= i < name.len() ==> continues_name(#[trigger] utf8(name)[i]),
{
    assert(is_ascii_chars(name)) by {
        assert forall|i: int| 0 <= i < name.len() implies (#[trigger] name[i] as u32) < 128 by {
            assert(is_name_char(name[i]));
        }
    }
    lemma_ascii_text(name);
    assert forall|i: int| 0 <= i < name.len() implies continues_name(#[trigger] utf8(name)[i]) by {
        assert(is_name_char(name[i]));
    }
}

proof fn lemma_no_byte(text: Seq<char>, c: char)
    requires
        !text.contains(c),
        (c as u32) < 128,
    ensures
        forall|i: int| 0 <= i < utf8(text).len() ==> #[trigger] utf8(text)[i] != c as u8,
{
    assert forall|i: int| 0 <= i < utf8(text).len() implies #[trigger] utf8(text)[i] != c as u8 by {
        if utf8(text)[i] == c as u8 {
            law_ascii_byte_is_char(text, i);
        }
    }
}

/// What stands behind a name does not go on with it.
proof fn lemma_name_ends(attrs: Seq<char>)
    requires
        is_behind_name(attrs),
        attrs.len() > 0,
    ensures
        utf8(attrs).len() > 0,
        !continues_name(utf8(attrs)[0]),
{
    lemma_utf8_len(attrs);
    if continues_name(utf8(attrs)[0]) {
        law_ascii_byte_is_char(attrs, 0);
    }
}

/// The bytes of an opening tag.
proof fn lemma_opening_bytes(name: Seq<char>, attrs: Seq<char>, slash: bool)
    requires
        is_name(name),
        is_behind_name(attrs),
    ensures
        ({
            let u = utf8(opening(name, attrs, slash));
            let k = name.len() as int;
            &&& u.len() >= k + 2
            &&& u[0] == '<' as u8
            &&& u.last() == '>' as u8
            &&& !continues_name(u[k + 1])
            &&& forall|i: int| 0 < i < u.len() ==> #[trigger] u[i] != '<' as u8
            &&& forall|i: int| 0 <= i < u.len() - 1 ==> #[trigger] u[i] != '>' as u8
            &&& forall|i: int| 0 <= i < k ==> #[trigger] u[i + 1] == utf8(name)[i]
        }),
{
    reveal_strlit("<");
    reveal_strlit(">");
    reveal_strlit("/");
    lemma_ascii_text("<"@);
    lemma_ascii_text(">"@);
    lemma_ascii_text("/"@);
    let mid = if slash {
        "/"@
    } else {
        Seq::empty()
    };
    lemma_utf8_len(Seq::<char>::empty());
    lemma_name_bytes(name);
    lemma_no_byte(attrs, '<');
    lemma_no_byte(attrs, '>');
    lemma_utf8_concat("<"@, name);
    lemma_utf8_concat("<"@ + name, attrs);
    lemma_utf8_concat("<"@ + name + attrs, mid);
    lemma_utf8_concat("<"@ + name + attrs + mid, ">"@);
    let u = utf8(opening(name, attrs, slash));
    let (k, a) = (name.len() as int, utf8(attrs).len() as int);
    lemma_utf8_len(attrs);
    if attrs.len() > 0 {
        lemma_name_ends(attrs);
        assert(u[k + 1] == utf8(attrs)[0]);
    } else if slash {
        assert(u[k + 1] == '/' as u8);
    } else {
        assert(u[k + 1] == '>' as u8);
    }
    assert forall|i: int| 0 <= i < k implies #[trigger] u[i + 1] == utf8(name)[i] by {}
    assert forall|i: int| 0 < i < u.len() implies #[trigger] u[i] != '<' as u8 by {
        if i <= k {
            assert(u[i] == utf8(name)[i - 1]);
            assert(continues_name(utf8(name)[i - 1]));
        } else if i <= k + a {
            assert(u[i] == utf8(attrs)[i - 1 - k]);
        }
    }
    assert forall|i: int| 0 <= i < u.len() - 1 implies #[trigger] u[i] != '>' as u8 by {
        if 0 < i <= k {
            assert(u[i] == utf8(name)[i - 1]);
            assert(continues_name(utf8(name)[i - 1]));
        } else if k < i <= k + a {
            assert(u[i] == utf8(attrs)[i - 1 - k]);
        }
    }
}

proof fn lemma_closing_bytes(name: Seq<char>)
    requires
        is_name(name),
    ensures
        ({
            let u = utf8(closing(name));
            let k = name.len() as int;
            &&& u.len() == k + 3
            &&& u[0] == '<' as u8
            &&& u[1] == '/' as u8
            &&& u[k + 2] == '>' as u8
            &&& forall|i: int| 0 < i < u.len() ==> #[trigger] u[i] != '<' as u8
            &&& forall|i: int| 0 <= i < k ==> #[trigger] u[i + 2] == utf8(name)[i]
        }),
{
    reveal_strlit("</");
    reveal_strlit(">");
    lemma_ascii_text("</"@);
    lemma_ascii_text(">"@);
    lemma_name_bytes(name);
    lemma_utf8_concat("</"@, name);
    lemma_utf8_concat("</"@ + name, ">"@);
    let u = utf8(closing(name));
    let k = name.len() as int;
    assert forall|i: int| 0 <= i < k implies #[trigger] u[i + 2] == utf8(name)[i] by {}
    assert forall|i: int| 0 < i < u.len() implies #[trigger] u[i] != '<' as u8 by {
        if 1 < i < k + 2 {
            assert(u[i] == utf8(name)[i - 2]);
            assert(continues_name(utf8(name)[i - 2]));
        }
    }
}

proof fn lemma_same_names(a: Seq<char>, b: Seq<char>)
    requires
        is_name(a),
        is_name(b),
        a.len() == b.len(),
        forall|i: int| 0 <= i < a.len() ==> utf8(a)[i] == #[trigger] utf8(b)[i],
    ensures
        a == b,
{
    lemma_name_bytes(a);
    lemma_name_bytes(b);
    assert forall|i: int| 0 <= i < a.len() implies a[i] == b[i] by {
        assert(utf8(a)[i] == utf8(b)[i]);
        assert(is_name_char(a[i]) && is_name_char(b[i]));
    }
    assert(a =~= b);
}

/// An opening tag is one of its own name and of no other.
proof fn lemma_opening(
    pre: Seq<char>,
    name: Seq<char>,
    attrs: Seq<char>,
    slash: bool,
    post: Seq<char>,
    tag: Seq<char>,
)
    requires
        is_name(name),
        is_name(tag),
        is_behind_name(attrs),
    ensures
        ({
            let o = opening(name, attrs, slash);
            let code = pre + o + post;
            let (b, at, end) = (
                utf8(code),
                utf8(pre).len() as int,
                utf8(pre + o).len() as int,
            );
            &&& at < end <= b.len()
            &&& name == tag ==> is_tag_span(b, at, end, utf8(tag)) && opens_at(b, at, utf8(tag))
                && !closes_at(b, at, utf8(tag))
            &&& name != tag ==> !is_tag(b, at, utf8(tag))
            &&& forall|k: int| at < k < end ==> !#[trigger] is_tag(b, k, utf8(tag))
        }),
{
    let o = opening(name, attrs, slash);
    let code = pre + o + post;
    let (b, at, end) = (utf8(code), utf8(pre).len() as int, utf8(pre + o).len() as int);
    let (u, k, t) = (utf8(o), name.len() as int, utf8(tag));
    lemma_utf8_concat(pre, o);
    lemma_utf8_concat(pre + o, post);
    lemma_opening_bytes(name, attrs, slash);
    lemma_name_bytes(name);
    lemma_name_bytes(tag);
    reveal_strlit("</");
    lemma_ascii_text("</"@);
    assert forall|i: int| 0 <= i < u.len() implies b[at + i] == #[trigger] u[i] by {}
    assert(b[at] == u[0] && b[at + 1] == u[1]);
    assert(!occurs_at(b, utf8("</"@), at)) by {
        if occurs_at(b, utf8("</"@), at) {
            assert(b.subrange(at, at + 2)[1] == b[at + 1]);
            assert(u[0int + 1] == utf8(name)[0]);
            assert(continues_name(utf8(name)[0]));
        }
    }
    assert forall|j: int| at < j < end implies !#[trigger] is_tag(b, j, t) by {
        if is_tag(b, j, t) {
            lemma_tag_stands(b, j, t);
            assert(b[j] == u[j - at]);
        }
    }
    if name == tag {
        assert(occurs_at(b, t, at + 1)) by {
            assert forall|i: int| 0 <= i < k implies b[at + 1 + i] == t[i] by {
                assert(u[i + 1] == utf8(name)[i]);
            }
            assert(b.subrange(at + 1, at + 1 + t.len()) =~= t);
        }
        assert(b[at + 1 + k] == u[k + 1]);
        assert(b[end - 1] == u[u.len() - 1]);
        assert forall|j: int| at <= j < end - 1 implies b[j] != '>' as u8 by {
            assert(b[j] == u[j - at]);
        }
    } else if opens_at(b, at, t) {
        let s = b.subrange(at + 1, at + 1 + t.len() as int);
        assert(s == t);
        if tag.len() < k {
            assert(u[tag.len() as int + 1] == utf8(name)[tag.len() as int]);
            assert(continues_name(utf8(name)[tag.len() as int]));
            assert(b[at + 1 + tag.len()] == u[tag.len() as int + 1]);
        } else if tag.len() > k {
            assert(s[k] == b[at + 1 + k]);
            assert(b[at + 1 + k] == u[k + 1]);
            assert(continues_name(t[k]));
        } else {
            assert forall|i: int| 0 <= i < k implies utf8(name)[i] == #[trigger] t[i] by {
                assert(s[i] == b[at + 1 + i]);
                assert(u[i + 1] == utf8(name)[i]);
            }
            lemma_same_names(name, tag);
        }
    }
}

/// A closing tag is one of its own name and of no other.
proof fn lemma_closing(pre: Seq<char>, name: Seq<char>, post: Seq<char>, tag: Seq<char>)
    requires
        is_name(name),
        is_name(tag),
    ensures
        ({
            let c = closing(name);
            let code = pre + c + post;
            let (b, at, end) = (
                utf8(code),
                utf8(pre).len() as int,
                utf8(pre + c).len() as int,
            );
            &&& at < end <= b.len()
            &&& name == tag ==> is_tag_span(b, at, end, utf8(tag)) && closes_at(b, at, utf8(tag))
            &&& name != tag ==> !is_tag(b, at, utf8(tag))
            &&& forall|k: int| at < k < end ==> !#[trigger] is_tag(b, k, utf8(tag))
        }),
{
    let c = closing(name);
    let code = pre + c + post;
    let (b, at, end) = (utf8(code), utf8(pre).len() as int, utf8(pre + c).len() as int);
    let (u, k, t) = (utf8(c), name.len() as int, utf8(tag));
    lemma_utf8_concat(pre, c);
    lemma_utf8_concat(pre + c, post);
    lemma_closing_bytes(name);
    lemma_name_bytes(name);
    lemma_name_bytes(tag);
    reveal_strlit("</");
    lemma_ascii_text("</"@);
    assert forall|i: int| 0 <= i < u.len() implies b[at + i] == #[trigger] u[i] by {}
    assert(b[at] == u[0] && b[at + 1] == u[1]);
    assert(occurs_at(b, utf8("</"@), at)) by {
        assert(b.subrange(at, at + 2) =~= utf8("</"@));
    }
    assert forall|j: int| at < j < end implies !#[trigger] is_tag(b, j, t) by {
        if is_tag(b, j, t) {
            lemma_tag_stands(b, j, t);
            assert(b[j] == u[j - at]);
        }
    }
    if name == tag {
        assert(occurs_at(b, t, at + 2)) by {
            assert forall|i: int| 0 <= i < k implies b[at + 2 + i] == t[i] by {
                assert(u[i + 2] == utf8(name)[i]);
            }
            assert(b.subrange(at + 2, at + 2 + t.len()) =~= t);
        }
        assert(b[at + 2 + k] == u[k + 2]);
    } else if closes_at(b, at, t) {
        let s = b.subrange(at + 2, at + 2 + t.len() as int);
        assert(s == t);
        if tag.len() < k {
            assert(u[tag.len() as int + 2] == utf8(name)[tag.len() as int]);
            assert(continues_name(utf8(name)[tag.len() as int]));
            assert(b[at + 2 + tag.len()] == u[tag.len() as int + 2]);
        } else if tag.len() > k {
            assert(s[k] == b[at + 2 + k]);
            assert(b[at + 2 + k] == u[k + 2]);
            assert(continues_name(t[k]));
        } else {
            assert forall|i: int| 0 <= i < k implies utf8(name)[i] == #[trigger] t[i] by {
                assert(s[i] == b[at + 2 + i]);
                assert(u[i + 2] == utf8(name)[i]);
            }
            lemma_same_names(name, tag);
        }
    }
}

/// Whether a tag closes itself is told by the slash before its `>`.
proof fn lemma_slash(name: Seq<char>, attrs: Seq<char>)
    requires
        is_name(name),
    ensures
        is_self_closing("<"@ + name + attrs + "/"@),
        attrs.len() == 0 || (attrs.last() != '/' && !is_space(attrs.last())) ==> !is_self_closing(
            "<"@ + name + attrs,
        ),
{
    reveal_strlit("/");
    let none = Seq::<char>::empty();
    let s = "<"@ + name + attrs + "/"@;
    law_without_tail(s, none, CharSet::Whitespace);
    assert(s + none =~= s);
    assert(s.subrange(s.len() - 1, s.len() as int) =~= "/"@);
    let t = "<"@ + name + attrs;
    if attrs.len() == 0 || (attrs.last() != '/' && !is_space(attrs.last())) {
        if attrs.len() == 0 {
            assert(t.last() == name.last());
            assert(is_name_char(name[name.len() - 1]));
        } else {
            assert(t.last() == attrs.last());
        }
        law_without_tail(t, none, CharSet::Whitespace);
        assert(t + none =~= t);
        if ends_with(t, "/"@) {
            assert(t.subrange(t.len() - 1, t.len() as int)[0] == t.last());
        }
    }
}

// ---------------------------------------------------------------------------
// Passing over nodes
// ---------------------------------------------------------------------------

/// What lies between two offsets holds no tag of the name, so that the search
/// passes over it.
proof fn lemma_pass_over(code: Seq<char>, tag: Seq<char>, at: int, end: int, depth: int)
    requires
        0 <= at <= end,
        forall|k: int| at <= k < end ==> !#[trigger] is_tag(utf8(code), k, utf8(tag)),
    ensures
        subtree_end(code, tag, at, depth) == subtree_end(code, tag, end, depth),
{
    lemma_no_tag_before(code, tag, at, end, depth);
}

/// A node that is proper closes what it opens: the search for the end of an
/// element around it goes on behind it as it was.
proof fn lemma_node(pre: Seq<char>, node: Node, post: Seq<char>, tag: Seq<char>, depth: int)
    requires
        is_proper(node),
        is_name(tag),
        1 <= depth,
    ensures
        subtree_end(pre + written(node) + post, tag, utf8(pre).len() as int, depth) == subtree_end(
            pre + written(node) + post,
            tag,
            utf8(pre + written(node)).len() as int,
            depth,
        ),
    decreases node, 0nat,
{
    let w = written(node);
    let code = pre + w + post;
    let (b, at, end) = (utf8(code), utf8(pre).len() as int, utf8(pre + w).len() as int);
    lemma_utf8_concat(pre, w);
    lemma_utf8_concat(pre + w, post);
    match node {
        Node::Text(t) => {
            lemma_no_byte(t, '<');
            assert forall|k: int| at <= k < end implies !#[trigger] is_tag(b, k, utf8(tag)) by {
                if is_tag(b, k, utf8(tag)) {
                    lemma_tag_stands(b, k, utf8(tag));
                    assert(b[k] == utf8(w)[k - at]);
                }
            }
            lemma_pass_over(code, tag, at, end, depth);
        },
        Node::Leaf { name, attrs } => {
            lemma_opening(pre, name, attrs, true, post, tag);
            if name == tag {
                lemma_slash(name, attrs);
                lemma_inner_text(pre, name, attrs, true, post);
                lemma_tag_step(code, tag, at, end, depth);
            } else {
                lemma_pass_over(code, tag, at, end, depth);
            }
        },
        Node::Element { name, attrs, children } => {
            let (o, kids, c) = (
                opening(name, attrs, false),
                all_written(children, children.len()),
                closing(name),
            );
            let inside = pre + o;
            let before = inside + kids;
            assert(code =~= pre + o + (kids + c + post));
            assert(code =~= inside + kids + (c + post));
            assert(code =~= before + c + post);
            assert(pre + w =~= before + c);
            lemma_opening(pre, name, attrs, false, kids + c + post, tag);
            lemma_closing(before, name, post, tag);
            let (x, y) = (utf8(inside).len() as int, utf8(before).len() as int);
            if name == tag {
                lemma_slash(name, attrs);
                lemma_inner_text(pre, name, attrs, false, kids + c + post);
                lemma_tag_step(code, tag, at, x, depth);
                lemma_nodes(inside, children, children.len(), c + post, tag, depth + 1);
                lemma_tag_step(code, tag, y, end, depth + 1);
            } else {
                lemma_pass_over(code, tag, at, x, depth);
                lemma_nodes(inside, children, children.len(), c + post, tag, depth);
                lemma_pass_over(code, tag, y, end, depth);
            }
        },
    }
}

/// The text of an opening tag up to its `>`.
proof fn lemma_inner_text(
    pre: Seq<char>,
    name: Seq<char>,
    attrs: Seq<char>,
    slash: bool,
    post: Seq<char>,
)
    ensures
        ({
            let o = opening(name, attrs, slash);
            let code = pre + o + post;
            let inner = "<"@ + name + attrs + (if slash {
                "/"@
            } else {
                Seq::empty()
            });
            &&& cut(code, utf8(pre).len() as int, utf8(pre + o).len() - 1) == inner
            &&& !slash ==> inner == "<"@ + name + attrs
        }),
{
    let o = opening(name, attrs, slash);
    let inner = "<"@ + name + attrs + (if slash {
        "/"@
    } else {
        Seq::empty()
    });
    reveal_strlit(">");
    lemma_ascii_text(">"@);
    law_cut_between(pre, inner, ">"@ + post);
    assert(pre + o + post =~= pre + inner + (">"@ + post));
    assert(pre + o =~= pre + inner + ">"@);
    lemma_utf8_concat(pre + inner, ">"@);
    if !slash {
        assert(inner =~= "<"@ + name + attrs);
    }
}

proof fn lemma_nodes(
    pre: Seq<char>,
    l: Seq<Node>,
    n: nat,
    post: Seq<char>,
    tag: Seq<char>,
    depth: int,
)
    requires
        n <= l.len(),
        all_proper(l, n),
        is_name(tag),
        1 <= depth,
    ensures
        subtree_end(pre + all_written(l, n) + post, tag, utf8(pre).len() as int, depth)
            == subtree_end(
            pre + all_written(l, n) + post,
            tag,
            utf8(pre + all_written(l, n)).len() as int,
            depth,
        ),
    decreases l, n,
{
    if n == 0 {
        assert(pre + all_written(l, n) =~= pre);
    } else {
        let (d, w) = (all_written(l, (n - 1) as nat), written(l[n - 1]));
        lemma_nodes(pre, l, (n - 1) as nat, w + post, tag, depth);
        lemma_node(pre + d, l[n - 1], post, tag, depth);
        assert(pre + all_written(l, n) + post =~= pre + d + (w + post));
        assert(pre + all_written(l, n) + post =~= pre + d + w + post);
        assert(pre + all_written(l, n) =~= pre + d + w);
    }
}

/// The subtree of an element ends right behind its own closing tag, whatever
/// proper nodes stand in it: text, tags that close themselves and elements in
/// each other, of the same name and of others, also of names that start alike.
pub proof fn law_subtree_of_element(
    pre: Seq<char>,
    children: Seq<Node>,
    name: Seq<char>,
    post: Seq<char>,
)
    requires
        is_name(name),
        all_proper(children, children.len()),
    ensures
        ({
            let body = all_written(children, children.len());
            subtree_end(
                pre + body + closing(name) + post,
                name,
                utf8(pre).len() as int,
                1,
            ) == Some(utf8(pre + body + closing(name)).len() as int)
        }),
{
    let body = all_written(children, children.len());
    let code = pre + body + closing(name) + post;
    lemma_nodes(pre, children, children.len(), closing(name) + post, name, 1);
    assert(code =~= pre + body + (closing(name) + post));
    lemma_closing(pre + body, name, post, name);
    lemma_tag_step(
        code,
        name,
        utf8(pre + body).len() as int,
        utf8(pre + body + closing(name)).len() as int,
        1,
    );
}

/// A mapped element is replaced whole: from its opening tag to its own closing
/// tag, whatever proper nodes stand in it, by a reference to its component.
/// What stands around it stays as it is.
pub proof fn law_element_is_replaced(
    pre: Seq<char>,
    name: Seq<char>,
    attrs: Seq<char>,
    children: Seq<Node>,
    post: Seq<char>,
    map: InstanceMapView,
    c: CandidateView,
)
    requires
        is_name(name),
        is_behind_name(attrs),
        all_proper(children, children.len()),
        c.tag == name,
        c.tag_start == utf8(pre).len(),
        c.tag_end == utf8(pre + opening(name, attrs, false)).len(),
        !c.self_close,
        component_for(map, c) is Some,
        ({
            let code = pre + (opening(name, attrs, false) + all_written(children, children.len())
                + closing(name)) + post;
            forall|i: int|
                0 <= i < map.mappings.len() ==> top_level_function(
                    code,
                    (#[trigger] map.mappings[i]).0,
                ) is None
        }),
    ensures
        ({
            let code = pre + (opening(name, attrs, false) + all_written(children, children.len())
                + closing(name)) + post;
            let entry = component_for(map, c)->0;
            &&& outcome(code, map, seq![c]) is Ok
            &&& outcome(code, map, seq![c])->Ok_0.body == pre + ("<"@ + binding(
                entry,
                c.data_name,
            ) + " />"@) + post
        }),
{
    let (o, body) = (opening(name, attrs, false), all_written(children, children.len()));
    let whole = o + body + closing(name);
    let code = pre + whole + post;
    law_subtree_of_element(pre + o, children, name, post);
    assert(code =~= pre + o + body + closing(name) + post);
    assert(pre + whole =~= pre + o + body + closing(name));
    lemma_one_edit(pre, whole, post, map, c);
}

/// A mapped tag that closes itself is replaced, and nothing else.
pub proof fn law_leaf_is_replaced(
    pre: Seq<char>,
    tag_text: Seq<char>,
    post: Seq<char>,
    map: InstanceMapView,
    c: CandidateView,
)
    requires
        c.self_close,
        c.tag_start == utf8(pre).len(),
        c.tag_end == utf8(pre + tag_text).len(),
        component_for(map, c) is Some,
        forall|i: int|
            0 <= i < map.mappings.len() ==> top_level_function(
                pre + tag_text + post,
                (#[trigger] map.mappings[i]).0,
            ) is None,
    ensures
        outcome(pre + tag_text + post, map, seq![c]) is Ok,
        outcome(pre + tag_text + post, map, seq![c])->Ok_0.body == pre + ("<"@ + binding(
            component_for(map, c)->0,
            c.data_name,
        ) + " />"@) + post,
{
    lemma_one_edit(pre, tag_text, post, map, c);
}

proof fn lemma_no_removals(
    code: Seq<char>,
    p: Plan,
    mappings: Seq<(Seq<char>, EntryView)>,
)
    requires
        forall|i: int|
            0 <= i < mappings.len() ==> top_level_function(
                code,
                (#[trigger] mappings[i]).0,
            ) is None,
    ensures
        with_removals(code, p, mappings) == p,
    decreases mappings.len(),
{
    if mappings.len() > 0 {
        let d = mappings.drop_last();
        assert(top_level_function(code, mappings[mappings.len() - 1].0) is None);
        assert forall|i: int| 0 <= i < d.len() implies top_level_function(
            code,
            (#[trigger] d[i]).0,
        ) is None by {
            assert(d[i] == mappings[i]);
        }
        lemma_no_removals(code, p, d);
    }
}

proof fn lemma_one_edit(
    pre: Seq<char>,
    whole: Seq<char>,
    post: Seq<char>,
    map: InstanceMapView,
    c: CandidateView,
)
    requires
        c.tag_start == utf8(pre).len(),
        element_end(pre + whole + post, c) == Some(utf8(pre + whole).len() as int),
        component_for(map, c) is Some,
        forall|i: int|
            0 <= i < map.mappings.len() ==> top_level_function(
                pre + whole + post,
                (#[trigger] map.mappings[i]).0,
            ) is None,
    ensures
        outcome(pre + whole + post, map, seq![c]) is Ok,
        outcome(pre + whole + post, map, seq![c])->Ok_0.body == pre + ("<"@ + binding(
            component_for(map, c)->0,
            c.data_name,
        ) + " />"@) + post,
{
    let code = pre + whole + post;
    let l = seq![c];
    let none = Seq::<EditView>::empty();
    assert(l.drop_last() =~= Seq::empty());
    assert(replacements(code, map, l.drop_last()) == Ok::<Plan, CandidateView>(empty_plan()));
    let p = replacements(code, map, l)->Ok_0;
    let e = EditView {
        start: utf8(pre).len() as int,
        end: utf8(pre + whole).len() as int,
        replacement: "<"@ + binding(component_for(map, c)->0, c.data_name) + " />"@,
    };
    assert(p.edits =~= seq![e]);
    lemma_no_removals(code, p, map.mappings);
    assert(seq![e].drop_last() =~= none);
    reveal_with_fuel(sorted, 2);
    reveal_with_fuel(outermost, 2);
    assert(sorted(seq![e], Order::Outer) =~= seq![e]);
    assert(made(seq![e]) =~= seq![e]);
    law_spliced(pre, whole, e.replacement, post, none);
    law_spliced(post, whole, e.replacement, post, none);
    assert(seq![e] + moved(none, e.end) =~= seq![e]);
}

} // verus!
