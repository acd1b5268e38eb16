//! Adobe's provenance chain in an XMP packet, which appears both as
//! attributes and as nested elements depending on which tool wrote it.
use vstd::prelude::*;
use vstd::string::*;
use vstd::utf8::{decode_utf8, valid_utf8};
use crate::meta::{trim, trimmed_text, Provenance};
use crate::text::chars_of;
use quick_xml::events::Event as XmlEv;

verus! {

/// The reader of an XMP packet, as quick-xml keeps it.
#[verifier::external_type_specification]
#[verifier::external_body]
#[verifier::reject_recursive_types(R)]
pub struct ExXmlReader<R>(quick_xml::Reader<R>);

/// One event of an XML packet, as the provenance reading needs it.
#[derive(Debug, Clone, PartialEq, Eq)]
pub enum XmlEvent {
    /// A start tag or an empty-element tag: its name and its attributes as
    /// (key, value), `None` for an attribute the reader could not read.
    Open { name: Vec<u8>, attrs: Vec<Option<(Vec<u8>, Vec<u8>)>> },
    /// Character data between tags, as written.
    Text(Vec<u8>),
    /// An end tag.
    Close,
    /// The end of the packet, or an error that ends the reading.
    Stop,
    /// Anything else: a comment, a declaration, CDATA.
    Other,
}

/// An attribute by its bytes.
pub type AttrView = Option<(Seq<u8>, Seq<u8>)>;

/// [`XmlEvent`] by its bytes.
pub enum XmlEventView {
    Open(Seq<u8>, Seq<AttrView>),
    Text(Seq<u8>),
    Close,
    Stop,
    Other,
}

pub open spec fn attr_view(a: Option<(Vec<u8>, Vec<u8>)>) -> AttrView {
    match a {
        Some((k, v)) => Some((k@, v@)),
        None => None,
    }
}

impl View for XmlEvent {
    type V = XmlEventView;

    open spec fn view(&self) -> XmlEventView {
        match self {
            XmlEvent::Open { name, attrs } => XmlEventView::Open(
                name@,
                attrs@.map_values(|a: Option<(Vec<u8>, Vec<u8>)>| attr_view(a)),
            ),
            XmlEvent::Text(t) => XmlEventView::Text(t@),
            XmlEvent::Close => XmlEventView::Close,
            XmlEvent::Stop => XmlEventView::Stop,
            XmlEvent::Other => XmlEventView::Other,
        }
    }
}

/// The events quick-xml's `Reader::read_event` yields for the packet `xmp`,
/// read from its start, each as [`next_xml_event`] gives it, up to and
/// including the first that ends the reading (the end, or an error).
pub uninterp spec fn xml_events(xmp: Seq<u8>) -> Seq<XmlEventView>;

/// The events a reader has yet to yield, up to and including the first
/// that ends the reading.
pub uninterp spec fn pending_events(reader: quick_xml::Reader<&[u8]>) -> Seq<XmlEventView>;

/// The events end with the one that ends the reading, and only there.
pub open spec fn ends_once(events: Seq<XmlEventView>) -> bool {
    &&& events.len() > 0
    &&& events.last() is Stop
    &&& forall|i: int| 0 <= i < events.len() - 1 ==> !(#[trigger] events[i] is Stop)
}

/// A reader at the start of `xmp`, by `Reader::from_reader`: it has all of
/// the packet's events to yield. A reader over a finite slice reaches the
/// end, or an error, and reads nothing after it.
#[verifier::external_body]
fn xml_reader<'a>(xmp: &'a [u8]) -> (r: quick_xml::Reader<&'a [u8]>)
    ensures
        pending_events(r) == xml_events(xmp@),
        ends_once(pending_events(r)),
{
    quick_xml::Reader::from_reader(xmp)
}

/// The next event of the packet, read by quick-xml's `Reader::read_event`:
/// the first of those the reader has yet to yield, which it then no longer
/// has.
#[verifier::external_body]
fn next_xml_event(reader: &mut quick_xml::Reader<&[u8]>) -> (e: XmlEvent)
    ensures
        pending_events(*old(reader)).len() > 0 ==> e@ == pending_events(*old(reader))[0]
            && pending_events(*final(reader)) == pending_events(*old(reader)).drop_first(),
{
    match reader.read_event() {
        Ok(XmlEv::Start(e)) | Ok(XmlEv::Empty(e)) => XmlEvent::Open {
            name: e.name().as_ref().to_vec(),
            attrs: e.attributes().map(|a| a.ok().map(|a| (a.key.as_ref().to_vec(), a.value.to_vec()))).collect(),
        },
        Ok(XmlEv::Text(t)) => XmlEvent::Text(t.to_vec()),
        Ok(XmlEv::End(_)) => XmlEvent::Close,
        Ok(XmlEv::Eof) | Err(_) => XmlEvent::Stop,
        Ok(_) => XmlEvent::Other,
    }
}

/// What `String::from_utf8_lossy` makes of `b`.
pub uninterp spec fn utf8_lossy(b: Seq<u8>) -> Seq<char>;

/// The text of `b` by `String::from_utf8_lossy`: valid UTF-8 is decoded as
/// it stands; each invalid sequence becomes U+FFFD.
#[verifier::external_body]
pub(crate) fn lossy_text(b: &[u8]) -> (r: String)
    ensures
        r@ == utf8_lossy(b@),
        valid_utf8(b@) ==> r@ == decode_utf8(b@),
{
    String::from_utf8_lossy(b).into_owned()
}

/// The bytes `b` spell `lit`, character for byte.
pub open spec fn spells(b: Seq<u8>, lit: Seq<char>) -> bool {
    b.len() == lit.len() && forall|i: int| 0 <= i < b.len() ==> (b[i] as u32) == (lit[i] as u32)
}

fn bytes_spell(b: &[u8], lit: &str) -> (r: bool)
    ensures
        r == spells(b@, lit@),
{
    let cs = chars_of(lit);
    if b.len() != cs.len() {
        return false;
    }
    let mut i: usize = 0;
    while i < b.len()
        invariant
            cs@ == lit@,
            b@.len() == cs@.len(),
            i <= b@.len(),
            forall|k: int| 0 <= k < i ==> (b@[k] as u32) == (lit@[k] as u32),
        decreases b@.len() - i,
    {
        if (b[i] as u32) != (cs[i] as u32) {
            return false;
        }
        i = i + 1;
    }
    true
}

/// What has been read of the packet so far.
pub struct XmpState {
    pub document_id: Option<Seq<char>>,
    pub original_document_id: Option<Seq<char>>,
    pub derived_from: Option<Seq<char>>,
    pub creator_tool: Option<Seq<char>>,
    /// The element whose text is being read.
    pub element: Option<Seq<u8>>,
}

/// The state before anything is read.
pub open spec fn xmp_start() -> XmpState {
    XmpState {
        document_id: None,
        original_document_id: None,
        derived_from: None,
        creator_tool: None,
        element: None,
    }
}

/// `slot` if it is already filled, else `v`.
pub open spec fn keep_first(slot: Option<Seq<char>>, v: Seq<char>) -> Option<Seq<char>> {
    match slot {
        Some(x) => Some(x),
        None => Some(v),
    }
}

/// The state after the value `raw` is found under `name`: a trimmed,
/// non-empty value fills the field that name stands for, unless an earlier
/// value already did.
pub open spec fn take(s: XmpState, name: Seq<u8>, raw: Seq<u8>) -> XmpState {
    let v = trim(utf8_lossy(raw));
    if v.len() == 0 {
        s
    } else if spells(name, "xmpMM:DocumentID"@) {
        XmpState { document_id: keep_first(s.document_id, v), ..s }
    } else if spells(name, "xmpMM:OriginalDocumentID"@) {
        XmpState { original_document_id: keep_first(s.original_document_id, v), ..s }
    } else if spells(name, "xmpMM:DerivedFrom"@) || spells(name, "stRef:documentID"@) {
        XmpState { derived_from: keep_first(s.derived_from, v), ..s }
    } else if spells(name, "xmp:CreatorTool"@) || spells(name, "tiff:Software"@) {
        XmpState { creator_tool: keep_first(s.creator_tool, v), ..s }
    } else {
        s
    }
}

/// The state after the first `m` attributes.
pub open spec fn take_attrs(s: XmpState, attrs: Seq<AttrView>, m: int) -> XmpState
    decreases m,
{
    if m <= 0 {
        s
    } else {
        let t = take_attrs(s, attrs, m - 1);
        match attrs[m - 1] {
            Some((k, v)) => take(t, k, v),
            None => t,
        }
    }
}

/// The state after one event.
pub open spec fn step(s: XmpState, e: XmlEventView) -> XmpState {
    match e {
        XmlEventView::Open(name, attrs) => XmpState {
            element: Some(name),
            ..take_attrs(s, attrs, attrs.len() as int)
        },
        XmlEventView::Text(t) => match s.element {
            Some(n) => take(s, n, t),
            None => s,
        },
        XmlEventView::Close => XmpState { element: None, ..s },
        _ => s,
    }
}

/// The state after the first `m` events.
pub open spec fn read_events(events: Seq<XmlEventView>, m: int) -> XmpState
    decreases m,
{
    if m <= 0 {
        xmp_start()
    } else {
        step(read_events(events, m - 1), events[m - 1])
    }
}

pub open spec fn text_view(s: Option<String>) -> Option<Seq<char>> {
    match s {
        Some(x) => Some(x@),
        None => None,
    }
}

/// The provenance and the creating tool named by reading `events`.
pub open spec fn provenance_of(
    r: (Provenance, Option<String>),
    events: Seq<XmlEventView>,
) -> bool {
    let s = read_events(events, events.len() as int);
    &&& text_view(r.0.document_id) == s.document_id
    &&& text_view(r.0.original_document_id) == s.original_document_id
    &&& text_view(r.0.derived_from) == s.derived_from
    &&& r.0.dng_original_raw is None
    &&& text_view(r.1) == s.creator_tool
}

/// What the packet's events say: the document id, the original document id,
/// the document it was derived from, and the tool that wrote it, each the
/// first trimmed, non-empty value found for it.
struct Taken {
    doc: Option<String>,
    orig: Option<String>,
    derived: Option<String>,
    tool: Option<String>,
}

impl Taken {
    spec fn matches(&self, s: XmpState) -> bool {
        &&& text_view(self.doc) == s.document_id
        &&& text_view(self.orig) == s.original_document_id
        &&& text_view(self.derived) == s.derived_from
        &&& text_view(self.tool) == s.creator_tool
    }

    fn take(&mut self, name: &[u8], raw: &[u8], Ghost(s): Ghost<XmpState>)
        requires
            old(self).matches(s),
        ensures
            final(self).matches(take(s, name@, raw@)),
    {
        let v = trimmed_text(lossy_text(raw).as_str());
        if v.as_str().is_empty() {
            return;
        }
        if bytes_spell(name, "xmpMM:DocumentID") {
            if self.doc.is_none() {
                self.doc = Some(v);
            }
        } else if bytes_spell(name, "xmpMM:OriginalDocumentID") {
            if self.orig.is_none() {
                self.orig = Some(v);
            }
        } else if bytes_spell(name, "xmpMM:DerivedFrom") || bytes_spell(name, "stRef:documentID") {
            if self.derived.is_none() {
                self.derived = Some(v);
            }
        } else if bytes_spell(name, "xmp:CreatorTool") || bytes_spell(name, "tiff:Software") {
            if self.tool.is_none() {
                self.tool = Some(v);
            }
        }
    }
}

/// The provenance an XMP packet's events name, and the tool that wrote it.
pub fn provenance_from(events: &[XmlEvent]) -> (r: (Provenance, Option<String>))
    ensures
        provenance_of(r, events@.map_values(|e: XmlEvent| e@)),
{
    let ghost views = events@.map_values(|e: XmlEvent| e@);
    let mut t = Taken { doc: None, orig: None, derived: None, tool: None };
    let mut element: Option<Vec<u8>> = None;
    let mut i: usize = 0;
    while i < events.len()
        invariant
            i <= events@.len(),
            views == events@.map_values(|e: XmlEvent| e@),
            t.matches(read_events(views, i as int)),
            match element {
                Some(n) => read_events(views, i as int).element == Some(n@),
                None => read_events(views, i as int).element is None,
            },
        decreases events@.len() - i,
    {
        let ghost s = read_events(views, i as int);
        match &events[i] {
            XmlEvent::Open { name, attrs } => {
                let ghost av = attrs@.map_values(|a: Option<(Vec<u8>, Vec<u8>)>| attr_view(a));
                let mut j: usize = 0;
                while j < attrs.len()
                    invariant
                        j <= attrs@.len(),
                        av == attrs@.map_values(|a: Option<(Vec<u8>, Vec<u8>)>| attr_view(a)),
                        t.matches(take_attrs(s, av, j as int)),
                    decreases attrs@.len() - j,
                {
                    let ghost before = take_attrs(s, av, j as int);
                    match &attrs[j] {
                        Some((k, v)) => {
                            t.take(k.as_slice(), v.as_slice(), Ghost(before));
                        },
                        None => {},
                    }
                    j = j + 1;
                }
                element = Some(name.clone());
            },
            XmlEvent::Text(text) => {
                match &element {
                    Some(n) => {
                        t.take(n.as_slice(), text.as_slice(), Ghost(s));
                    },
                    None => {},
                }
            },
            XmlEvent::Close => {
                element = None;
            },
            _ => {},
        }
        proof {
            assert(views[i as int] == events@[i as int]@);
        }
        i = i + 1;
    }
    proof {
        assert(views.len() == events@.len());
    }
    (
        Provenance {
            document_id: t.doc,
            original_document_id: t.orig,
            derived_from: t.derived,
            dng_original_raw: None,
        },
        t.tool,
    )
}

/// Reading a `Stop` changes nothing, so the events before the last of a
/// sequence that ends with one say what the whole says.
proof fn lemma_read_prefix(events: Seq<XmlEventView>, m: int)
    requires
        0 <= m <= events.len(),
    ensures
        read_events(events.take(m), m) == read_events(events, m),
    decreases m,
{
    if m > 0 {
        lemma_read_prefix(events, m - 1);
        assert(events.take(m).take(m - 1) =~= events.take(m - 1));
        lemma_read_prefix_of(events.take(m), events, m - 1);
    }
}

proof fn lemma_read_prefix_of(a: Seq<XmlEventView>, b: Seq<XmlEventView>, m: int)
    requires
        0 <= m <= a.len(),
        m <= b.len(),
        forall|i: int| 0 <= i < m ==> a[i] == b[i],
    ensures
        read_events(a, m) == read_events(b, m),
    decreases m,
{
    if m > 0 {
        lemma_read_prefix_of(a, b, m - 1);
    }
}

/// Adobe's provenance chain in an XMP packet, and the tool that wrote the
/// packet: what the packet's events, as quick-xml reads them, name (see
/// [`provenance_from`]). The packet is read event by event until its end or
/// an error.
pub fn parse_xmp(xmp: &[u8]) -> (r: (Provenance, Option<String>))
    ensures
        provenance_of(r, xml_events(xmp@)),
{
    let mut reader = xml_reader(xmp);
    let ghost all = xml_events(xmp@);
    let mut events: Vec<XmlEvent> = Vec::new();
    loop
        invariant_except_break
            pending_events(reader) == all.skip(events@.len() as int),
        invariant
            ends_once(all),
            events@.len() < all.len(),
            events@.map_values(|e: XmlEvent| e@) == all.take(events@.len() as int),
        ensures
            events@.len() == all.len() - 1,
            events@.map_values(|e: XmlEvent| e@) == all.take(events@.len() as int),
        decreases all.len() - events@.len(),
    {
        let ghost k = events@.len() as int;
        let e = next_xml_event(&mut reader);
        assert(e@ == all[k]);
        if let XmlEvent::Stop = e {
            assert(k == all.len() - 1);
            break;
        }
        assert(k < all.len() - 1);
        let ghost before = events@.map_values(|e: XmlEvent| e@);
        events.push(e);
        proof {
            assert(events@.map_values(|e: XmlEvent| e@) =~= before.push(all[k]));
            assert(all.take(k + 1) =~= all.take(k).push(all[k]));
            assert(all.skip(k).drop_first() =~= all.skip(k + 1));
        }
    }
    let r = provenance_from(&events);
    proof {
        let n = all.len() - 1;
        let views = events@.map_values(|e: XmlEvent| e@);
        lemma_read_prefix(all, n);
        assert(views.len() == n);
        assert(read_events(all, all.len() as int) == read_events(all, n));
    }
    r
}

} // verus!
