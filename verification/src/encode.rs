use vstd::prelude::*;

use crate::decode::{entries_model, find_entry, lemma_find_key, lookup};
use crate::text::{
    is_at_key, key_is_at, spec_escape, str_chars, str_eq, string_from_chars, strip_at, text_key,
};
use crate::value::{Tree, Value, XmlError};

verus! {

// ---------------------------------------------------------------------------
// The specification of the encoder: the exact text a tree value becomes.
// ---------------------------------------------------------------------------

/// The declaration every encoded document starts with.
pub open spec fn xml_decl() -> Seq<char> {
    "<?xml version=\"1.0\" encoding=\"utf-8\"?>"@
}

/// Whether a map entry becomes a child element: its key is neither an
/// attribute key nor the text key.
pub open spec fn is_child_key(k: Seq<char>) -> bool {
    !is_at_key(k) && k != text_key()
}

/// The text a value contributes as an attribute value or under the text
/// key: its text when it is a string, the empty text otherwise.
pub open spec fn attr_text(v: Tree) -> Seq<char> {
    match v {
        Tree::Text(s) => s,
        _ => Seq::empty(),
    }
}

/// The text a bare scalar element holds: a string its text, a number its
/// decimal text, a boolean `true` or `false`, null nothing.
pub open spec fn scalar_text(v: Tree) -> Seq<char> {
    match v {
        Tree::Text(s) => s,
        Tree::Number(s) => s,
        Tree::Bool(b) => if b {
            "true"@
        } else {
            "false"@
        },
        _ => Seq::empty(),
    }
}

/// The attributes of the opening tag, in entry order: one ` name="value"`
/// piece for every `@`-prefixed key, the prefix stripped and the value
/// escaped; other entries contribute nothing here.
pub open spec fn render_attrs(entries: Seq<(Seq<char>, Tree)>) -> Seq<char>
    decreases entries.len(),
{
    if entries.len() == 0 {
        Seq::empty()
    } else {
        let head = if is_at_key(entries[0].0) {
            seq![' '] + entries[0].0.drop_first() + "=\""@ + spec_escape(attr_text(entries[0].1))
                + "\""@
        } else {
            Seq::empty()
        };
        head + render_attrs(entries.drop_first())
    }
}

/// Whether the map holds a child-element entry.
pub open spec fn has_child(entries: Seq<(Seq<char>, Tree)>) -> bool {
    exists|i: int| 0 <= i < entries.len() && is_child_key((#[trigger] entries[i]).0)
}

/// The text an element takes from an inline-text entry, if one is there:
/// the first entry under the text key, escaped.
pub open spec fn text_part(entries: Seq<(Seq<char>, Tree)>) -> Seq<char> {
    match lookup(entries, text_key()) {
        Some(t) => spec_escape(attr_text(t)),
        None => Seq::empty(),
    }
}

/// The text one tree value becomes under a tag name.
///
/// - A map becomes one element: attributes on the opening tag, then the
///   inline text, then the child elements in entry order; with no text and
///   no children the tag self-closes.
/// - A list becomes one sibling element per item, all under the same tag:
///   this restores the repeated siblings the decoder folded into the list.
/// - A bare scalar becomes an element holding its text, escaped, or a
///   self-closing tag when that text is empty.
pub open spec fn spec_emit(v: Tree, tag: Seq<char>) -> Seq<char>
    decreases v,
{
    match v {
        Tree::Object(entries) => {
            let opening = seq!['<'] + tag + render_attrs(entries);
            if lookup(entries, text_key()) is None && !has_child(entries) {
                opening + "/>"@
            } else {
                opening + seq!['>'] + text_part(entries) + emit_children(entries) + "</"@ + tag
                    + seq!['>']
            }
        },
        Tree::List(items) => emit_list(items, tag),
        scalar => {
            let t = scalar_text(scalar);
            if t.len() == 0 {
                seq!['<'] + tag + "/>"@
            } else {
                seq!['<'] + tag + seq!['>'] + spec_escape(t) + "</"@ + tag + seq!['>']
            }
        },
    }
}

/// The child elements of a map, in entry order; attribute and text entries
/// contribute nothing here.
pub open spec fn emit_children(entries: Seq<(Seq<char>, Tree)>) -> Seq<char>
    decreases entries,
{
    if entries.len() == 0 {
        Seq::empty()
    } else {
        let head = if is_child_key(entries[0].0) {
            spec_emit(entries[0].1, entries[0].0)
        } else {
            Seq::empty()
        };
        head + emit_children(entries.drop_first())
    }
}

/// One sibling element per list item, all under the same tag.
pub open spec fn emit_list(items: Seq<Tree>, tag: Seq<char>) -> Seq<char>
    decreases items,
{
    if items.len() == 0 {
        Seq::empty()
    } else {
        spec_emit(items[0], tag) + emit_list(items.drop_first(), tag)
    }
}

/// The top-level elements: one element per entry of the root map, in entry
/// order, each under its key as the tag name.
pub open spec fn emit_roots(entries: Seq<(Seq<char>, Tree)>) -> Seq<char>
    decreases entries,
{
    if entries.len() == 0 {
        Seq::empty()
    } else {
        spec_emit(entries[0].1, entries[0].0) + emit_roots(entries.drop_first())
    }
}

/// The whole document a root map becomes: the declaration, then the
/// top-level elements.
pub open spec fn spec_encode(entries: Seq<(Seq<char>, Tree)>) -> Seq<char> {
    xml_decl() + emit_roots(entries)
}

// ---------------------------------------------------------------------------
// The executable encoder, verified against the specification above.
// ---------------------------------------------------------------------------

/// Append the characters of a string.
fn append_str(out: &mut Vec<char>, s: &str)
    ensures
        final(out)@ == old(out)@ + s@,
{
    let mut cs = str_chars(s);
    out.append(&mut cs);
}

/// Append a text, escaped.
fn append_escaped(out: &mut Vec<char>, s: &str)
    ensures
        final(out)@ == old(out)@ + spec_escape(s@),
{
    let e = crate::xmlio::escape_xml(s);
    append_str(out, e.as_str());
}

/// Append what a value contributes as an attribute value or inline text.
fn append_attr_text(out: &mut Vec<char>, v: &Value)
    ensures
        final(out)@ == old(out)@ + spec_escape(attr_text(v.model())),
{
    match v {
        Value::Text(s) => append_escaped(out, s.as_str()),
        _ => {
            proof {
                assert(spec_escape(Seq::<char>::empty()) == Seq::<char>::empty());
                assert(out@ + Seq::<char>::empty() =~= out@);
            }
        },
    }
}

/// The text of a bare scalar element.
fn scalar_text_exec(v: &Value) -> (r: String)
    ensures
        r@ == scalar_text(v.model()),
{
    match v {
        Value::Text(s) => s.clone(),
        Value::Number(s) => s.clone(),
        Value::Bool(b) => if *b {
            "true".to_owned()
        } else {
            "false".to_owned()
        },
        _ => String::new(),
    }
}

/// Emit one value under a tag name: append exactly the text `spec_emit`
/// says.
#[verifier::loop_isolation(false)]
fn emit_value(v: &Value, tag: &String, out: &mut Vec<char>)
    ensures
        final(out)@ == old(out)@ + spec_emit(v.model(), tag@),
    decreases *v,
{
    match v {
        Value::Object(entries) => {
            let ghost em = v.model()->Object_0;
            proof {
                assert forall|t: int| 0 <= t < entries@.len() implies #[trigger] em[t] == (
                    entries@[t].0@,
                    entries@[t].1.model(),
                ) by {}
                assert(em =~= entries_model(entries@));
            }
            let ghost pre = out@;
            out.push('<');
            append_str(out, tag.as_str());
            proof {
                assert(out@ =~= pre + seq!['<'] + tag@);
                assert(em.skip(0) =~= em);
            }
            let mut i: usize = 0;
            while i < entries.len()
                invariant
                    0 <= i <= entries@.len(),
                    em == v.model()->Object_0,
                    em.len() == entries@.len(),
                    forall|t: int|
                        0 <= t < entries@.len() ==> #[trigger] em[t] == (
                            entries@[t].0@,
                            entries@[t].1.model(),
                        ),
                    out@ + render_attrs(em.skip(i as int)) == pre + seq!['<'] + tag@
                        + render_attrs(em),
                decreases entries@.len() - i,
            {
                let ghost o0 = out@;
                proof {
                    assert(em.skip(i as int)[0] == em[i as int]);
                    assert(em.skip(i as int).drop_first() =~= em.skip(i as int + 1));
                }
                let e = &entries[i];
                if key_is_at(&e.0) {
                    out.push(' ');
                    let stripped = strip_at(&e.0);
                    append_str(out, stripped.as_str());
                    append_str(out, "=\"");
                    append_attr_text(out, &e.1);
                    append_str(out, "\"");
                    proof {
                        let h = seq![' '] + e.0@.drop_first() + "=\""@ + spec_escape(
                            attr_text(e.1.model()),
                        ) + "\""@;
                        assert(out@ =~= o0 + h);
                        vstd::seq_lib::lemma_concat_associative(
                            o0,
                            h,
                            render_attrs(em.skip(i as int + 1)),
                        );
                    }
                } else {
                    proof {
                        assert(Seq::<char>::empty() + render_attrs(em.skip(i as int + 1)) =~=
                            render_attrs(em.skip(i as int + 1)));
                    }
                }
                i = i + 1;
            }
            proof {
                assert(em.skip(entries@.len() as int) =~= Seq::<(Seq<char>, Tree)>::empty());
                assert(out@ + Seq::<char>::empty() =~= out@);
            }
            let text_idx = find_entry(entries, &"#text".to_owned());
            let mut has_children = false;
            let mut j: usize = 0;
            while j < entries.len()
                invariant
                    0 <= j <= entries@.len(),
                    em == v.model()->Object_0,
                    em.len() == entries@.len(),
                    forall|t: int|
                        0 <= t < entries@.len() ==> #[trigger] em[t] == (
                            entries@[t].0@,
                            entries@[t].1.model(),
                        ),
                    has_children == exists|t: int|
                        0 <= t < j && is_child_key((#[trigger] em[t]).0),
                decreases entries@.len() - j,
            {
                let e = &entries[j];
                let child = !key_is_at(&e.0) && !str_eq(&e.0, "#text");
                proof {
                    assert(child == is_child_key(em[j as int].0));
                }
                if child {
                    has_children = true;
                    proof {
                        assert(is_child_key(em[j as int].0));
                    }
                }
                j = j + 1;
            }
            proof {
                assert(has_children == has_child(em));
            }
            // The opening tag with its attributes stands in `out` now.
            let ghost opened = out@;
            if text_idx.is_none() && !has_children {
                append_str(out, "/>");
            } else {
                out.push('>');
                proof {
                    assert(out@ =~= opened + seq!['>']);
                }
                match text_idx {
                    Some(ti) => {
                        proof {
                            lemma_find_key(em, text_key());
                        }
                        append_attr_text(out, &entries[ti].1);
                    },
                    None => {
                        proof {
                            assert(out@ + text_part(em) =~= out@);
                        }
                    },
                }
                proof {
                    assert(out@ == opened + seq!['>'] + text_part(em));
                    assert(em.skip(0) =~= em);
                }
                let ghost pre_children = out@;
                let mut c: usize = 0;
                while c < entries.len()
                    invariant
                        0 <= c <= entries@.len(),
                        em == v.model()->Object_0,
                        em.len() == entries@.len(),
                        forall|t: int|
                            0 <= t < entries@.len() ==> #[trigger] em[t] == (
                                entries@[t].0@,
                                entries@[t].1.model(),
                            ),
                        out@ + emit_children(em.skip(c as int)) == pre_children + emit_children(
                            em,
                        ),
                    decreases entries@.len() - c,
                {
                    let ghost o0 = out@;
                    proof {
                        assert(em.skip(c as int)[0] == em[c as int]);
                        assert(em.skip(c as int).drop_first() =~= em.skip(c as int + 1));
                    }
                    let e = &entries[c];
                    let child = !key_is_at(&e.0) && !str_eq(&e.0, "#text");
                    proof {
                        assert(child == is_child_key(em[c as int].0));
                    }
                    if child {
                        proof {
                            assert(decreases_to!(*v => (*v)->Object_0));
                            assert((*v)->Object_0 == *entries);
                            assert(decreases_to!(*entries => entries@));
                            assert(decreases_to!(entries@ => entries@[c as int]));
                            assert(decreases_to!(entries@[c as int] => entries@[c as int].1));
                        }
                        emit_value(&e.1, &e.0, out);
                        proof {
                            vstd::seq_lib::lemma_concat_associative(
                                o0,
                                spec_emit(e.1.model(), e.0@),
                                emit_children(em.skip(c as int + 1)),
                            );
                        }
                    } else {
                        proof {
                            assert(Seq::<char>::empty() + emit_children(em.skip(c as int + 1))
                                =~= emit_children(em.skip(c as int + 1)));
                        }
                    }
                    c = c + 1;
                }
                proof {
                    assert(em.skip(entries@.len() as int) =~= Seq::<(Seq<char>, Tree)>::empty());
                    assert(out@ + Seq::<char>::empty() =~= out@);
                    assert(out@ == opened + seq!['>'] + text_part(em) + emit_children(em));
                }
                append_str(out, "</");
                append_str(out, tag.as_str());
                let ghost before_gt = out@;
                out.push('>');
                proof {
                    assert(out@ =~= before_gt + seq!['>']);
                }
            }
        },
        Value::List(items) => {
            let ghost lm = v.model()->List_0;
            proof {
                assert forall|t: int| 0 <= t < items@.len() implies #[trigger] lm[t]
                    == items@[t].model() by {}
                assert(lm.skip(0) =~= lm);
            }
            let ghost pre = out@;
            let mut i: usize = 0;
            while i < items.len()
                invariant
                    0 <= i <= items@.len(),
                    lm == v.model()->List_0,
                    lm.len() == items@.len(),
                    forall|t: int| 0 <= t < items@.len() ==> #[trigger] lm[t] == items@[t].model(),
                    out@ + emit_list(lm.skip(i as int), tag@) == pre + emit_list(lm, tag@),
                decreases items@.len() - i,
            {
                let ghost o0 = out@;
                proof {
                    assert(lm.skip(i as int)[0] == lm[i as int]);
                    assert(lm.skip(i as int).drop_first() =~= lm.skip(i as int + 1));
                    assert(decreases_to!(*v => (*v)->List_0));
                    assert((*v)->List_0 == *items);
                    assert(decreases_to!(*items => items@));
                    assert(decreases_to!(items@ => items@[i as int]));
                }
                emit_value(&items[i], tag, out);
                proof {
                    vstd::seq_lib::lemma_concat_associative(
                        o0,
                        spec_emit(lm[i as int], tag@),
                        emit_list(lm.skip(i as int + 1), tag@),
                    );
                }
                i = i + 1;
            }
            proof {
                assert(lm.skip(items@.len() as int) =~= Seq::<Tree>::empty());
                assert(out@ + Seq::<char>::empty() =~= out@);
            }
        },
        _ => {
            let t = scalar_text_exec(v);
            let tc = str_chars(t.as_str());
            let ghost pre = out@;
            out.push('<');
            append_str(out, tag.as_str());
            if tc.len() == 0 {
                append_str(out, "/>");
                proof {
                    assert(out@ =~= pre + seq!['<'] + tag@ + "/>"@);
                }
            } else {
                out.push('>');
                append_escaped(out, t.as_str());
                append_str(out, "</");
                append_str(out, tag.as_str());
                out.push('>');
                proof {
                    assert(out@ =~= pre + seq!['<'] + tag@ + seq!['>'] + spec_escape(t@) + "</"@
                        + tag@ + seq!['>']);
                }
            }
        },
    }
}

/// Encode a tree value as an XML document: the declaration, then one
/// top-level element per entry of the root map, in entry order, exactly as
/// `spec_encode` says.  A value whose top level is not a map is not
/// representable and is refused with `UnsupportedValueType`; nothing else
/// fails.
#[verifier::loop_isolation(false)]
pub fn encode(root: &Value) -> (r: Result<String, XmlError>)
    ensures
        match root.model() {
            Tree::Object(entries) => r matches Ok(s) && s@ == spec_encode(entries),
            _ => r == Err::<String, XmlError>(XmlError::UnsupportedValueType),
        },
{
    match root {
        Value::Object(entries) => {
            let ghost em = root.model()->Object_0;
            proof {
                assert forall|t: int| 0 <= t < entries@.len() implies #[trigger] em[t] == (
                    entries@[t].0@,
                    entries@[t].1.model(),
                ) by {}
                assert(em =~= entries_model(entries@));
            }
            let mut out: Vec<char> = Vec::new();
            append_str(&mut out, "<?xml version=\"1.0\" encoding=\"utf-8\"?>");
            proof {
                assert(out@ =~= xml_decl());
                assert(em.skip(0) =~= em);
            }
            let mut i: usize = 0;
            while i < entries.len()
                invariant
                    0 <= i <= entries@.len(),
                    em == root.model()->Object_0,
                    em.len() == entries@.len(),
                    forall|t: int|
                        0 <= t < entries@.len() ==> #[trigger] em[t] == (
                            entries@[t].0@,
                            entries@[t].1.model(),
                        ),
                    out@ + emit_roots(em.skip(i as int)) == xml_decl() + emit_roots(em),
                decreases entries@.len() - i,
            {
                let ghost o0 = out@;
                proof {
                    assert(em.skip(i as int)[0] == em[i as int]);
                    assert(em.skip(i as int).drop_first() =~= em.skip(i as int + 1));
                }
                let e = &entries[i];
                emit_value(&e.1, &e.0, &mut out);
                proof {
                    vstd::seq_lib::lemma_concat_associative(
                        o0,
                        spec_emit(em[i as int].1, em[i as int].0),
                        emit_roots(em.skip(i as int + 1)),
                    );
                }
                i = i + 1;
            }
            proof {
                assert(em.skip(entries@.len() as int) =~= Seq::<(Seq<char>, Tree)>::empty());
                assert(out@ + Seq::<char>::empty() =~= out@);
            }
            Ok(string_from_chars(&out))
        },
        _ => Err(XmlError::UnsupportedValueType),
    }
}

} // verus!
