use vstd::prelude::*;

use crate::events::{attrs_model, events_model, Ev, XmlEvent};
use crate::xmlio::{next_event, reader_events, spec_tokenize, xml_reader};
use crate::text::{at_key, is_at_key, is_blank, prefix_at, spec_blank, text_key};
use crate::value::{outcome_model, Fault, Tree, Value, XmlError};

verus! {

// ---------------------------------------------------------------------------
// The specification of the decoder: a state machine folded over the events.
// ---------------------------------------------------------------------------

/// The index of the first entry of the map with this key, or -1.
pub open spec fn find_key(m: Seq<(Seq<char>, Tree)>, k: Seq<char>) -> int
    decreases m.len(),
{
    if m.len() == 0 {
        -1
    } else if m[0].0 == k {
        0
    } else {
        let r = find_key(m.drop_first(), k);
        if r < 0 {
            -1
        } else {
            r + 1
        }
    }
}

/// The value under a key of the map, if any.
pub open spec fn lookup(m: Seq<(Seq<char>, Tree)>, k: Seq<char>) -> Option<Tree> {
    let i = find_key(m, k);
    if i < 0 {
        None
    } else {
        Some(m[i].1)
    }
}

/// What find_key finds: the first entry with the key.
pub proof fn lemma_find_key(m: Seq<(Seq<char>, Tree)>, k: Seq<char>)
    ensures
        find_key(m, k) < 0 ==> forall|j: int| 0 <= j < m.len() ==> (#[trigger] m[j]).0 != k,
        find_key(m, k) >= 0 ==> {
            &&& find_key(m, k) < m.len()
            &&& m[find_key(m, k)].0 == k
            &&& forall|j: int| 0 <= j < find_key(m, k) ==> (#[trigger] m[j]).0 != k
        },
    decreases m.len(),
{
    if m.len() > 0 && m[0].0 != k {
        lemma_find_key(m.drop_first(), k);
        assert forall|j: int| 1 <= j < m.len() implies m.drop_first()[j - 1] == m[j] by {}
    }
}

/// Replace the first entry with this key, or append a new one.  This is how
/// attributes enter a map: a same-named key is overwritten, attributes win.
pub open spec fn set_entry(m: Seq<(Seq<char>, Tree)>, k: Seq<char>, v: Tree) -> Seq<
    (Seq<char>, Tree),
> {
    let i = find_key(m, k);
    if i < 0 {
        m.push((k, v))
    } else {
        m.update(i, (k, v))
    }
}

/// Insert a closed child element under its tag name.  A repeated name merges
/// into a list: the second occurrence turns the entry into a two-element
/// list, later ones append.
pub open spec fn merge_entry(m: Seq<(Seq<char>, Tree)>, k: Seq<char>, v: Tree) -> Seq<
    (Seq<char>, Tree),
> {
    let i = find_key(m, k);
    if i < 0 {
        m.push((k, v))
    } else {
        match m[i].1 {
            Tree::List(items) => m.update(i, (k, Tree::List(items.push(v)))),
            _ => m.update(i, (k, Tree::List(seq![m[i].1, v]))),
        }
    }
}

/// Merge the pending attributes into the map, each key prefixed with `@`,
/// in order; attributes win over same-named keys.
pub open spec fn merge_attrs(
    m: Seq<(Seq<char>, Tree)>,
    attrs: Seq<(Seq<char>, Seq<char>)>,
) -> Seq<(Seq<char>, Tree)>
    decreases attrs.len(),
{
    if attrs.len() == 0 {
        m
    } else {
        merge_attrs(
            set_entry(m, at_key(attrs[0].0), Tree::Text(attrs[0].1)),
            attrs.drop_first(),
        )
    }
}

/// The value of an element when its end tag arrives, built from the value
/// accumulated for it and its pending attributes:
/// - a map keeps its entries and takes the attributes;
/// - a bare scalar with no attributes stays a bare scalar;
/// - a bare scalar with attributes moves under the key `#text`;
/// - an element that accumulated nothing becomes a map of its attributes
///   alone, which is empty when there are none.
pub open spec fn close_value(cur: Option<Tree>, attrs: Seq<(Seq<char>, Seq<char>)>) -> Tree {
    match cur {
        Some(Tree::Object(m)) => Tree::Object(merge_attrs(m, attrs)),
        Some(v) => if attrs.len() == 0 {
            v
        } else {
            Tree::Object(merge_attrs(seq![(text_key(), v)], attrs))
        },
        None => Tree::Object(merge_attrs(Seq::empty(), attrs)),
    }
}

/// One frame of the decoder's stack: the open element's tag name, and the
/// parent's partial value and pending attributes, restored when the element
/// closes.
#[verifier::ext_equal]
pub struct SpecFrame {
    pub name: Seq<char>,
    pub parent_value: Option<Tree>,
    pub parent_attrs: Seq<(Seq<char>, Seq<char>)>,
}

/// The decoder's state between two events.
#[verifier::ext_equal]
pub struct DecState {
    pub stack: Seq<SpecFrame>,
    pub cur: Option<Tree>,
    pub attrs: Seq<(Seq<char>, Seq<char>)>,
    pub root: Option<(Seq<char>, Tree)>,
}

/// The state before the first event.
pub open spec fn init_state() -> DecState {
    DecState { stack: Seq::empty(), cur: None, attrs: Seq::empty(), root: None }
}

/// The message carried by the fault for an end tag with no open element.
pub open spec fn unmatched_end_text() -> Seq<char> {
    "unmatched end tag"@
}

/// What the decoder holds once the events end: the last root element seen,
/// as a one-entry map from its tag name, or the fault for an empty document.
pub open spec fn finish(st: DecState) -> Result<Tree, Fault> {
    match st.root {
        Some((name, v)) => Ok(Tree::Object(seq![(name, v)])),
        None => Err(Fault::EmptyDocument),
    }
}

/// What one event does to the state, or the result it ends the run with.
///
/// - A start tag opens a frame; the new element starts as an empty map.
/// - Non-whitespace text replaces the element's accumulated value; the last
///   such text wins, and text arriving after child elements drops them.
/// - An end tag closes the element and inserts its value into the parent
///   map under the tag name (repeated names merge into a list).  When the
///   parent map was lost to later text, a fresh map takes its place.  When
///   the closed element was the outermost one, it is recorded as the
///   document root instead; a second root overwrites the first.
/// - A reader fault ends the run with `MalformedXml`, an end tag with no
///   open element likewise; end of input ends it with `finish`.
pub enum StepOut {
    Next(DecState),
    Done(Result<Tree, Fault>),
}

pub open spec fn step(st: DecState, ev: Ev) -> StepOut {
    match ev {
        Ev::Start { name, attrs } => StepOut::Next(
            DecState {
                stack: st.stack.push(
                    SpecFrame { name, parent_value: st.cur, parent_attrs: st.attrs },
                ),
                cur: Some(Tree::Object(Seq::empty())),
                attrs,
                root: st.root,
            },
        ),
        Ev::Text { content } => if spec_blank(content) {
            StepOut::Next(st)
        } else {
            StepOut::Next(
                DecState {
                    stack: st.stack,
                    cur: Some(Tree::Text(content)),
                    attrs: st.attrs,
                    root: st.root,
                },
            )
        },
        Ev::End => if st.stack.len() == 0 {
            StepOut::Done(
                Err(Fault::MalformedXml { position: 0, message: unmatched_end_text() }),
            )
        } else {
            let frame = st.stack.last();
            let closed = close_value(st.cur, st.attrs);
            let stack1 = st.stack.drop_last();
            if stack1.len() == 0 {
                StepOut::Next(
                    DecState {
                        stack: stack1,
                        cur: frame.parent_value,
                        attrs: frame.parent_attrs,
                        root: Some((frame.name, closed)),
                    },
                )
            } else {
                let pm = match frame.parent_value {
                    Some(Tree::Object(m)) => m,
                    _ => Seq::empty(),
                };
                StepOut::Next(
                    DecState {
                        stack: stack1,
                        cur: Some(Tree::Object(merge_entry(pm, frame.name, closed))),
                        attrs: frame.parent_attrs,
                        root: st.root,
                    },
                )
            }
        },
        Ev::Eof => StepOut::Done(finish(st)),
        Ev::Syntax { position, message } => StepOut::Done(
            Err(Fault::MalformedXml { position, message }),
        ),
        Ev::Other => StepOut::Next(st),
    }
}

/// The decoder's result: the state machine folded over the events, ending
/// at the first terminal event or, failing one, at the end of the list.
pub open spec fn run(st: DecState, evs: Seq<Ev>) -> Result<Tree, Fault>
    decreases evs.len(),
{
    if evs.len() == 0 {
        finish(st)
    } else {
        match step(st, evs[0]) {
            StepOut::Next(st1) => run(st1, evs.drop_first()),
            StepOut::Done(r) => r,
        }
    }
}

/// The tree a list of parse events decodes to.
pub open spec fn spec_decode(evs: Seq<Ev>) -> Result<Tree, Fault> {
    run(init_state(), evs)
}

/// Whatever the events were, a run that succeeds hands back a one-entry
/// map: the root element's name bound to its converted value.
pub proof fn lemma_run_root_shape(st: DecState, evs: Seq<Ev>)
    ensures
        run(st, evs) matches Ok(t) ==> exists|name: Seq<char>, v: Tree|
            t == Tree::Object(seq![(name, v)]),
    decreases evs.len(),
{
    if evs.len() > 0 {
        match step(st, evs[0]) {
            StepOut::Next(st1) => lemma_run_root_shape(st1, evs.drop_first()),
            StepOut::Done(_) => {},
        }
    }
}

// ---------------------------------------------------------------------------
// The executable decoder, verified against the state machine above.
// ---------------------------------------------------------------------------

/// The model of an executable map's entries.
pub open spec fn entries_model(m: Seq<(String, Value)>) -> Seq<(Seq<char>, Tree)> {
    m.map_values(|e: (String, Value)| (e.0@, e.1.model()))
}

/// The model of an optional partial value.
pub open spec fn opt_model(c: Option<Value>) -> Option<Tree> {
    match c {
        None => None,
        Some(v) => Some(v.model()),
    }
}

/// A map value models the map of its entries' models.
pub proof fn lemma_object_model(m: Vec<(String, Value)>)
    ensures
        Value::Object(m).model() == Tree::Object(entries_model(m@)),
{
    assert(Value::Object(m).model()->Object_0 =~= entries_model(m@));
}

/// The index of the first entry with this key, if any.
pub(crate) fn find_entry(m: &Vec<(String, Value)>, k: &String) -> (r: Option<usize>)
    ensures
        ({
            let fk = find_key(entries_model(m@), k@);
            match r {
                Some(i) => fk == i && i < m@.len(),
                None => fk == -1,
            }
        }),
{
    let mut j: usize = 0;
    while j < m.len()
        invariant
            0 <= j <= m@.len(),
            forall|t: int| 0 <= t < j ==> entries_model(m@)[t].0 != k@,
        decreases m@.len() - j,
    {
        let e = &m[j];
        if e.0 == *k {
            proof {
                assert(entries_model(m@)[j as int].0 == k@);
                lemma_find_key(entries_model(m@), k@);
            }
            return Some(j);
        }
        j = j + 1;
    }
    proof {
        lemma_find_key(entries_model(m@), k@);
    }
    None
}

/// Overwrite the first entry with this key, or append one.
fn set_entry_exec(m: &mut Vec<(String, Value)>, k: String, v: Value)
    ensures
        entries_model(final(m)@) == set_entry(entries_model(old(m)@), k@, v.model()),
{
    match find_entry(m, &k) {
        Some(i) => {
            m[i] = (k, v);
            proof {
                assert(entries_model(m@) =~= set_entry(entries_model(old(m)@), k@, v.model()));
            }
        },
        None => {
            m.push((k, v));
            proof {
                assert(entries_model(m@) =~= set_entry(entries_model(old(m)@), k@, v.model()));
            }
        },
    }
}

/// Insert a closed child element under its tag name, merging a repeated
/// name into a list.
fn merge_entry_exec(m: &mut Vec<(String, Value)>, k: String, v: Value)
    ensures
        entries_model(final(m)@) == merge_entry(entries_model(old(m)@), k@, v.model()),
{
    match find_entry(m, &k) {
        None => {
            m.push((k, v));
            proof {
                assert(entries_model(m@) =~= merge_entry(entries_model(old(m)@), k@, v.model()));
            }
        },
        Some(i) => {
            proof {
                lemma_find_key(entries_model(m@), k@);
            }
            let (k0, old_v) = m.remove(i);
            match old_v {
                Value::List(mut items) => {
                    items.push(v);
                    proof {
                        assert(Value::List(items).model()->List_0 =~= old(
                            m,
                        )@[i as int].1.model()->List_0.push(v.model()));
                    }
                    m.insert(i, (k0, Value::List(items)));
                },
                other => {
                    let mut pair: Vec<Value> = Vec::new();
                    pair.push(other);
                    pair.push(v);
                    proof {
                        assert(Value::List(pair).model()->List_0 =~= seq![
                            old(m)@[i as int].1.model(),
                            v.model(),
                        ]);
                    }
                    m.insert(i, (k0, Value::List(pair)));
                },
            }
            proof {
                assert(entries_model(m@) =~~= merge_entry(entries_model(old(m)@), k@, v.model()));
            }
        },
    }
}

/// Merge the pending attributes into the map, first to last, each key
/// prefixed with `@`; attributes overwrite same-named keys.
fn merge_attrs_exec(m: &mut Vec<(String, Value)>, attrs: Vec<(String, String)>)
    ensures
        entries_model(final(m)@) == merge_attrs(entries_model(old(m)@), attrs_model(attrs@)),
{
    let mut rest = attrs;
    while rest.len() > 0
        invariant
            merge_attrs(entries_model(m@), attrs_model(rest@)) == merge_attrs(
                entries_model(old(m)@),
                attrs_model(attrs@),
            ),
        decreases rest@.len(),
    {
        let ghost rest0 = rest@;
        let (ak, av) = rest.remove(0);
        proof {
            assert(attrs_model(rest0).drop_first() =~= attrs_model(rest@));
        }
        let key = prefix_at(ak.as_str());
        set_entry_exec(m, key, Value::Text(av));
    }
}

/// The value of an element when its end tag arrives.
fn close_elem(cur: Option<Value>, attrs: Vec<(String, String)>) -> (r: Value)
    ensures
        r.model() == close_value(opt_model(cur), attrs_model(attrs@)),
{
    match cur {
        Some(Value::Object(mut m)) => {
            proof {
                lemma_object_model(m);
            }
            merge_attrs_exec(&mut m, attrs);
            proof {
                lemma_object_model(m);
            }
            Value::Object(m)
        },
        Some(v) => {
            if attrs.len() == 0 {
                v
            } else {
                let mut m: Vec<(String, Value)> = Vec::new();
                m.push(("#text".to_owned(), v));
                proof {
                    assert(entries_model(m@) =~= seq![(text_key(), v.model())]);
                }
                merge_attrs_exec(&mut m, attrs);
                proof {
                    lemma_object_model(m);
                }
                Value::Object(m)
            }
        },
        None => {
            let mut m: Vec<(String, Value)> = Vec::new();
            proof {
                assert(entries_model(m@) =~= Seq::<(Seq<char>, Tree)>::empty());
            }
            merge_attrs_exec(&mut m, attrs);
            proof {
                lemma_object_model(m);
            }
            Value::Object(m)
        },
    }
}

/// One frame of the executable decoder's stack.
struct Frame {
    name: String,
    parent_value: Option<Value>,
    parent_attrs: Vec<(String, String)>,
}

impl Frame {
    spec fn model(self) -> SpecFrame {
        SpecFrame {
            name: self.name@,
            parent_value: opt_model(self.parent_value),
            parent_attrs: attrs_model(self.parent_attrs@),
        }
    }
}

/// The model of the executable stack.
spec fn frames_model(s: Seq<Frame>) -> Seq<SpecFrame> {
    s.map_values(|f: Frame| f.model())
}

/// The model of the captured root, if any.
pub open spec fn root_model(r: Option<(String, Value)>) -> Option<(Seq<char>, Tree)> {
    match r {
        None => None,
        Some((n, v)) => Some((n@, v.model())),
    }
}

/// Fold the parse events into one tree value, exactly as `spec_decode`
/// says: the document root becomes a one-entry map from the root element's
/// tag name to its converted value.  A reader fault or an end tag with no
/// open element yields `MalformedXml`; events that end without a root yield
/// `EmptyDocument`.
pub fn decode_events(events: Vec<XmlEvent>) -> (r: Result<Value, XmlError>)
    ensures
        outcome_model(r) == spec_decode(events_model(events@)),
{
    let mut evs = events;
    let mut stack: Vec<Frame> = Vec::new();
    let mut cur: Option<Value> = None;
    let mut attrs: Vec<(String, String)> = Vec::new();
    let mut root: Option<(String, Value)> = None;
    proof {
        assert(frames_model(stack@) =~= init_state().stack);
        assert(attrs_model(attrs@) =~= init_state().attrs);
    }
    while evs.len() > 0
        invariant
            run(
                DecState {
                    stack: frames_model(stack@),
                    cur: opt_model(cur),
                    attrs: attrs_model(attrs@),
                    root: root_model(root),
                },
                events_model(evs@),
            ) == spec_decode(events_model(events@)),
        decreases evs@.len(),
    {
        let ghost st0 = DecState {
            stack: frames_model(stack@),
            cur: opt_model(cur),
            attrs: attrs_model(attrs@),
            root: root_model(root),
        };
        let ghost evs0 = evs@;
        let ev = evs.remove(0);
        let ghost evm = ev.model();
        proof {
            assert(events_model(evs0)[0] == evm);
            assert(events_model(evs0).drop_first() =~= events_model(evs@));
        }
        match ev {
            XmlEvent::Start { name, attrs: a } => {
                let ghost st1 = step(st0, evm)->Next_0;
                let prev_cur = cur;
                let prev_attrs = attrs;
                stack.push(Frame { name, parent_value: prev_cur, parent_attrs: prev_attrs });
                let fresh: Vec<(String, Value)> = Vec::new();
                proof {
                    lemma_object_model(fresh);
                    assert(entries_model(fresh@) =~= Seq::<(Seq<char>, Tree)>::empty());
                }
                cur = Some(Value::Object(fresh));
                attrs = a;
                proof {
                    assert(frames_model(stack@) =~= st1.stack);
                }
            },
            XmlEvent::Text { content } => {
                if !is_blank(content.as_str()) {
                    cur = Some(Value::Text(content));
                }
            },
            XmlEvent::End => {
                let frame = match stack.pop() {
                    Some(f) => f,
                    None => {
                        return Err(
                            XmlError::MalformedXml {
                                position: 0,
                                message: "unmatched end tag".to_owned(),
                            },
                        );
                    },
                };
                proof {
                    assert(frame.model() == st0.stack.last());
                    assert(frames_model(stack@) =~= st0.stack.drop_last());
                }
                let prev_cur = cur;
                let prev_attrs = attrs;
                let closed = close_elem(prev_cur, prev_attrs);
                attrs = frame.parent_attrs;
                if stack.len() == 0 {
                    cur = frame.parent_value;
                    root = Some((frame.name, closed));
                } else {
                    let mut pm: Vec<(String, Value)> = match frame.parent_value {
                        Some(Value::Object(m)) => m,
                        _ => Vec::new(),
                    };
                    proof {
                        lemma_object_model(pm);
                        if !(frame.model().parent_value matches Some(Tree::Object(_))) {
                            assert(entries_model(pm@) =~= Seq::<(Seq<char>, Tree)>::empty());
                        }
                    }
                    merge_entry_exec(&mut pm, frame.name, closed);
                    proof {
                        lemma_object_model(pm);
                    }
                    cur = Some(Value::Object(pm));
                }
            },
            XmlEvent::Eof => {
                return finish_exec(root);
            },
            XmlEvent::Syntax { position, message } => {
                return Err(XmlError::MalformedXml { position, message });
            },
            XmlEvent::Other => {},
        }
    }
    finish_exec(root)
}

/// Decode an XML document into one tree value: exactly the decoding of
/// what the outside reader tokenizes the text to.
///
/// `spec_tokenize` names the reader's event stream for the text, and
/// `spec_decode` is the fold `decode_events` carries in full: on a document
/// with a root element the result is a one-entry map from the root tag
/// name, a reader fault yields `MalformedXml`, and a document with no root
/// element `EmptyDocument`.
pub fn decode(xml: &str) -> (r: Result<Value, XmlError>)
    ensures
        outcome_model(r) == spec_decode(spec_tokenize(xml@)),
        r matches Ok(v) ==> exists|name: Seq<char>, t: Tree|
            v.model() == Tree::Object(seq![(name, t)]),
{
    let mut reader = xml_reader(xml);
    let mut events: Vec<XmlEvent> = Vec::new();
    proof {
        assert(events_model(events@) =~= Seq::<Ev>::empty());
        assert(Seq::<Ev>::empty() + spec_tokenize(xml@) =~= spec_tokenize(xml@));
    }
    loop
        invariant_except_break
            events_model(events@) + reader_events(reader) == spec_tokenize(xml@),
        ensures
            events_model(events@) == spec_tokenize(xml@),
        decreases reader_events(reader).len(),
    {
        let ghost consumed = events@;
        let ghost stream0 = reader_events(reader);
        let ev = next_event(&mut reader);
        let ghost evm = ev.model();
        let terminal = match &ev {
            XmlEvent::Eof => true,
            XmlEvent::Syntax { .. } => true,
            _ => false,
        };
        events.push(ev);
        proof {
            assert(events_model(events@) =~= events_model(consumed).push(evm));
            if terminal {
                assert(stream0 =~= seq![evm]);
                assert(events_model(events@) =~= events_model(consumed) + stream0);
            } else {
                assert(stream0 =~= seq![evm] + reader_events(reader));
                assert(events_model(events@) + reader_events(reader) =~= events_model(consumed)
                    + stream0);
            }
        }
        if terminal {
            break;
        }
    }
    let r = decode_events(events);
    proof {
        assert(outcome_model(r) == spec_decode(events_model(events@)));
        lemma_run_root_shape(init_state(), events_model(events@));
    }
    r
}

/// The decoder's result once the events have ended.
fn finish_exec(root: Option<(String, Value)>) -> (r: Result<Value, XmlError>)
    ensures
        outcome_model(r) == finish(
            DecState {
                stack: Seq::empty(),
                cur: None,
                attrs: Seq::empty(),
                root: root_model(root),
            },
        ),
{
    match root {
        Some((n, v)) => {
            let mut m: Vec<(String, Value)> = Vec::new();
            m.push((n, v));
            proof {
                lemma_object_model(m);
                assert(entries_model(m@) =~= seq![(n@, v.model())]);
            }
            Ok(Value::Object(m))
        },
        None => Err(XmlError::EmptyDocument),
    }
}


// ---------------------------------------------------------------------------
// Laws of the merge rules.
// ---------------------------------------------------------------------------

/// find_key looks at the keys alone.
proof fn lemma_find_key_keys(m1: Seq<(Seq<char>, Tree)>, m2: Seq<(Seq<char>, Tree)>, k: Seq<char>)
    requires
        m1.len() == m2.len(),
        forall|j: int| 0 <= j < m1.len() ==> (#[trigger] m1[j]).0 == (#[trigger] m2[j]).0,
    ensures
        find_key(m1, k) == find_key(m2, k),
    decreases m1.len(),
{
    if m1.len() > 0 {
        assert forall|j: int|
            0 <= j < m1.drop_first().len() implies (#[trigger] m1.drop_first()[j]).0 == (
        #[trigger] m2.drop_first()[j]).0 by {
            assert(m1.drop_first()[j] == m1[j + 1]);
            assert(m2.drop_first()[j] == m2[j + 1]);
        }
        lemma_find_key_keys(m1.drop_first(), m2.drop_first(), k);
    }
}

/// What appending an entry does to find_key: a key already found keeps its
/// place; a fresh key is found at the end when it is the appended one.
proof fn lemma_find_key_push(m: Seq<(Seq<char>, Tree)>, e: (Seq<char>, Tree), k: Seq<char>)
    ensures
        find_key(m, k) >= 0 ==> find_key(m.push(e), k) == find_key(m, k),
        find_key(m, k) < 0 && e.0 == k ==> find_key(m.push(e), k) == m.len(),
        find_key(m, k) < 0 && e.0 != k ==> find_key(m.push(e), k) < 0,
    decreases m.len(),
{
    if m.len() == 0 {
        assert(m.push(e)[0] == e);
        assert(m.push(e).drop_first() =~= Seq::<(Seq<char>, Tree)>::empty());
        assert(find_key(m.push(e).drop_first(), k) == -1);
        if e.0 == k {
            assert(find_key(m.push(e), k) == 0);
        } else {
            assert(find_key(m.push(e), k) == -1);
        }
    } else {
        lemma_find_key_push(m.drop_first(), e, k);
        assert(m.push(e).drop_first() =~= m.drop_first().push(e));
        assert(m.push(e)[0] == m[0]);
        if m[0].0 != k {
            assert(find_key(m.push(e), k) == {
                let r = find_key(m.drop_first().push(e), k);
                if r < 0 {
                    -1
                } else {
                    r + 1
                }
            });
            assert(find_key(m, k) == {
                let r = find_key(m.drop_first(), k);
                if r < 0 {
                    -1
                } else {
                    r + 1
                }
            });
        }
    }
}

/// What set_entry does to lookups: the set key maps to the value, any other
/// key keeps its binding.
pub proof fn lemma_set_entry_lookup(m: Seq<(Seq<char>, Tree)>, k: Seq<char>, v: Tree, k2: Seq<char>)
    ensures
        lookup(set_entry(m, k, v), k) == Some(v),
        k2 != k ==> lookup(set_entry(m, k, v), k2) == lookup(m, k2),
{
    lemma_find_key(m, k);
    lemma_find_key(m, k2);
    let i = find_key(m, k);
    if i < 0 {
        lemma_find_key_push(m, (k, v), k);
        lemma_find_key_push(m, (k, v), k2);
        lemma_find_key(m.push((k, v)), k2);
    } else {
        let u = m.update(i, (k, v));
        assert forall|j: int| 0 <= j < m.len() implies (#[trigger] u[j]).0 == (#[trigger] m[j]).0
            by {}
        lemma_find_key_keys(u, m, k);
        lemma_find_key_keys(u, m, k2);
        lemma_find_key(u, k2);
    }
}

/// Merging attributes leaves a key that is no prefixed attribute key bound
/// as it was.
proof fn lemma_merge_attrs_other(
    m: Seq<(Seq<char>, Tree)>,
    attrs: Seq<(Seq<char>, Seq<char>)>,
    k: Seq<char>,
)
    requires
        forall|j: int| 0 <= j < attrs.len() ==> at_key((#[trigger] attrs[j]).0) != k,
    ensures
        lookup(merge_attrs(m, attrs), k) == lookup(m, k),
    decreases attrs.len(),
{
    if attrs.len() > 0 {
        let m1 = set_entry(m, at_key(attrs[0].0), Tree::Text(attrs[0].1));
        lemma_set_entry_lookup(m, at_key(attrs[0].0), Tree::Text(attrs[0].1), k);
        assert forall|j: int|
            0 <= j < attrs.drop_first().len() implies at_key(
            (#[trigger] attrs.drop_first()[j]).0,
        ) != k by {
            assert(attrs.drop_first()[j] == attrs[j + 1]);
        }
        lemma_merge_attrs_other(m1, attrs.drop_first(), k);
    }
}

/// Prefixing with `@` keeps names apart: two distinct attribute names get
/// two distinct keys, and stripping the prefix gives the name back.
pub proof fn lemma_at_key_injective(k1: Seq<char>, k2: Seq<char>)
    ensures
        at_key(k1).drop_first() == k1,
        is_at_key(at_key(k1)),
        k1 != k2 ==> at_key(k1) != at_key(k2),
{
    assert(at_key(k1).drop_first() =~= k1);
    assert(at_key(k2).drop_first() =~= k2);
}

/// After merging attributes with pairwise distinct names, each attribute
/// stands in the map under its prefixed key, bound to its text.
pub proof fn lemma_merge_attrs_lookup(
    m: Seq<(Seq<char>, Tree)>,
    attrs: Seq<(Seq<char>, Seq<char>)>,
    i: int,
)
    requires
        0 <= i < attrs.len(),
        forall|a: int, b: int|
            0 <= a < b < attrs.len() ==> (#[trigger] attrs[a]).0 != (#[trigger] attrs[b]).0,
    ensures
        lookup(merge_attrs(m, attrs), at_key(attrs[i].0)) == Some(Tree::Text(attrs[i].1)),
    decreases attrs.len(),
{
    let m1 = set_entry(m, at_key(attrs[0].0), Tree::Text(attrs[0].1));
    if i == 0 {
        lemma_set_entry_lookup(m, at_key(attrs[0].0), Tree::Text(attrs[0].1), at_key(attrs[0].0));
        assert forall|j: int|
            0 <= j < attrs.drop_first().len() implies at_key(
            (#[trigger] attrs.drop_first()[j]).0,
        ) != at_key(attrs[0].0) by {
            assert(attrs.drop_first()[j] == attrs[j + 1]);
            lemma_at_key_injective(attrs[j + 1].0, attrs[0].0);
        }
        lemma_merge_attrs_other(m1, attrs.drop_first(), at_key(attrs[0].0));
    } else {
        assert forall|a: int, b: int|
            0 <= a < b < attrs.drop_first().len() implies (#[trigger] attrs.drop_first()[a]).0 != (
        #[trigger] attrs.drop_first()[b]).0 by {
            assert(attrs.drop_first()[a] == attrs[a + 1]);
            assert(attrs.drop_first()[b] == attrs[b + 1]);
        }
        assert(attrs.drop_first()[i - 1] == attrs[i]);
        lemma_merge_attrs_lookup(m1, attrs.drop_first(), i - 1);
    }
}

/// Every attribute of an element stands in its decoded map under its
/// `@`-prefixed key, bound to the attribute's text, whatever value the
/// element content produced: attributes win over a same-named key, and a
/// prefixed key never collides with the key of another attribute.  This
/// holds of every element the decoder closes, for attribute names that are
/// pairwise distinct, as they are in any one XML tag.
pub proof fn lemma_attribute_keys(
    cur: Option<Tree>,
    attrs: Seq<(Seq<char>, Seq<char>)>,
    i: int,
)
    requires
        0 <= i < attrs.len(),
        forall|a: int, b: int|
            0 <= a < b < attrs.len() ==> (#[trigger] attrs[a]).0 != (#[trigger] attrs[b]).0,
    ensures
        close_value(cur, attrs) matches Tree::Object(entries) && lookup(
            entries,
            at_key(attrs[i].0),
        ) == Some(Tree::Text(attrs[i].1)),
        at_key(attrs[i].0).drop_first() == attrs[i].0,
        is_at_key(at_key(attrs[i].0)),
{
    lemma_at_key_injective(attrs[i].0, attrs[i].0);
    match cur {
        Some(Tree::Object(m)) => lemma_merge_attrs_lookup(m, attrs, i),
        Some(v) => lemma_merge_attrs_lookup(seq![(text_key(), v)], attrs, i),
        None => lemma_merge_attrs_lookup(Seq::empty(), attrs, i),
    }
}

/// A repeated tag name merges into a list, in arrival order: under a fresh
/// key the first value stands alone; a second value under the same key
/// turns the binding into the list of both, first one first.
pub proof fn lemma_duplicate_merge(m: Seq<(Seq<char>, Tree)>, k: Seq<char>, v1: Tree, v2: Tree)
    requires
        lookup(m, k) is None,
        !(v1 is List),
    ensures
        lookup(merge_entry(m, k, v1), k) == Some(v1),
        lookup(merge_entry(merge_entry(m, k, v1), k, v2), k) == Some(Tree::List(seq![v1, v2])),
{
    lemma_find_key(m, k);
    let m1 = merge_entry(m, k, v1);
    lemma_find_key_push(m, (k, v1), k);
    assert(m1 == m.push((k, v1)));
    assert(m1[m.len() as int] == (k, v1));
    let i = find_key(m1, k);
    assert(i == m.len());
    let m2 = merge_entry(m1, k, v2);
    assert(m2 == m1.update(i, (k, Tree::List(seq![v1, v2]))));
    assert forall|j: int| 0 <= j < m1.len() implies (#[trigger] m2[j]).0 == (#[trigger] m1[j]).0
        by {}
    lemma_find_key_keys(m2, m1, k);
    assert(m2[i] == (k, Tree::List(seq![v1, v2])));
}

} // verus!
