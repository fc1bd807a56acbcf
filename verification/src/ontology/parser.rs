use vstd::prelude::*;
use quick_xml::events::Event;
use quick_xml::reader::Reader;
use crate::lang::number::{parse_radix, parsed};
use crate::lang::text::{clone_words, copy_range, from_chars, starts_with, strs, to_chars};
use crate::ontology::concepts::{Concept, ConceptModel, Relation, RelationModel};

verus! {

/// The kinds of XML events that the ontology reader tells apart.
#[derive(Debug, Clone, Copy, PartialEq, Eq, Structural)]
pub enum XmlKind {
    Start,
    Empty,
    Text,
    End,
    Other,
}

/// What the ontology reader reads of an XML event: its kind, the name of
/// its tag, the attributes it asks for (a missing one other than `rdf:ID`
/// reads as empty), and its unescaped text.
#[derive(Debug, Clone)]
pub struct XmlEvent {
    pub kind: XmlKind,
    pub name: String,
    pub id: Option<String>,
    pub lang: String,
    pub resource: String,
    pub frequency: String,
    pub verb_en: String,
    pub verb_uthmani: String,
    pub text: Option<String>,
}

/// An XML event as plain values.
pub ghost struct XmlEventModel {
    pub kind: XmlKind,
    pub name: Seq<char>,
    pub id: Option<Seq<char>>,
    pub lang: Seq<char>,
    pub resource: Seq<char>,
    pub frequency: Seq<char>,
    pub verb_en: Seq<char>,
    pub verb_uthmani: Seq<char>,
    pub text: Option<Seq<char>>,
}

pub open spec fn text_view(t: Option<String>) -> Option<Seq<char>> {
    match t {
        Some(s) => Some(s@),
        None => None,
    }
}

impl View for XmlEvent {
    type V = XmlEventModel;

    open spec fn view(&self) -> XmlEventModel {
        XmlEventModel {
            kind: self.kind,
            name: self.name@,
            id: text_view(self.id),
            lang: self.lang@,
            resource: self.resource@,
            frequency: self.frequency@,
            verb_en: self.verb_en@,
            verb_uthmani: self.verb_uthmani@,
            text: text_view(self.text),
        }
    }
}

/// The view of each optional string of a sequence.
pub open spec fn texts_view(v: Seq<Option<String>>) -> Seq<Option<Seq<char>>> {
    v.map_values(|t: Option<String>| text_view(t))
}

/// The text, or the empty text where there is none.
pub open spec fn or_empty(t: Option<Seq<char>>) -> Seq<char> {
    match t {
        Some(s) => s,
        None => Seq::empty(),
    }
}

/// An attribute as plain values: its key, and its unescaped value where it
/// can be read.
pub open spec fn attr_view(a: (String, Option<String>)) -> (Seq<char>, Option<Seq<char>>) {
    (a.0@, text_view(a.1))
}

/// The attributes of a tag as plain values.
pub open spec fn attrs_view(v: Seq<(String, Option<String>)>) -> Seq<
    (Seq<char>, Option<Seq<char>>),
> {
    v.map_values(|a: (String, Option<String>)| attr_view(a))
}

/// The attributes of each tag of a sequence as plain values.
pub open spec fn tags_view(v: Seq<Vec<(String, Option<String>)>>) -> Seq<
    Seq<(Seq<char>, Option<Seq<char>>)>,
> {
    v.map_values(|t: Vec<(String, Option<String>)>| attrs_view(t@))
}

/// The value of the first attribute with the key: its unescaped value, or
/// none where the tag has no such attribute or its value cannot be read.
pub open spec fn attr_value(attrs: Seq<(Seq<char>, Option<Seq<char>>)>, key: Seq<char>) -> Option<
    Seq<char>,
>
    decreases attrs.len(),
{
    if attrs.len() == 0 {
        None
    } else if attrs[0].0 == key {
        attrs[0].1
    } else {
        attr_value(attrs.drop_first(), key)
    }
}

/// What the XML reader makes of a text: the kinds of its events, up to the
/// end of the text or the first error, and the message of that error.
pub uninterp spec fn xml_outline(content: Seq<char>) -> (Seq<XmlKind>, Option<Seq<char>>);

/// The tag name of each event that the XML reader finds in a text; empty
/// for an event without a tag.
pub uninterp spec fn xml_names(content: Seq<char>) -> Seq<Seq<char>>;

/// For each event that the XML reader finds in a text, the attributes of
/// its tag that can be read, in order: the key of each, and its unescaped
/// value where that can be read.
pub uninterp spec fn xml_attrs(content: Seq<char>) -> Seq<Seq<(Seq<char>, Option<Seq<char>>)>>;

/// For each event that the XML reader finds in a text, its unescaped text,
/// where it is a text event that can be read.
pub uninterp spec fn xml_texts(content: Seq<char>) -> Seq<Option<Seq<char>>>;

/// `Reader::from_str` and `Reader::read_event`, until the end of the text or
/// the first error: the kind of each event before it, and the reader's
/// message for the error if there was one. Both depend on the text alone.
#[verifier::external_body]
fn read_outline(content: &str) -> (r: (Vec<XmlKind>, Option<String>))
    ensures
        r.0@ == xml_outline(content@).0,
        text_view(r.1) == xml_outline(content@).1,
{
    let mut reader = Reader::from_str(content);
    let mut kinds = Vec::new();
    loop {
        match reader.read_event() {
            Ok(Event::Eof) => return (kinds, None),
            Ok(Event::Start(_)) => kinds.push(XmlKind::Start),
            Ok(Event::Empty(_)) => kinds.push(XmlKind::Empty),
            Ok(Event::Text(_)) => kinds.push(XmlKind::Text),
            Ok(Event::End(_)) => kinds.push(XmlKind::End),
            Ok(_) => kinds.push(XmlKind::Other),
            Err(e) => return (kinds, Some(format!("{}", e))),
        }
    }
}

/// `Reader::read_event` over the same text, with `BytesStart::name` and
/// `BytesEnd::name` as text: one name for each event up to the end of the
/// text or the first error, so as many as there are kinds.
#[verifier::external_body]
fn read_names(content: &str) -> (r: Vec<String>)
    ensures
        strs(r@) == xml_names(content@),
        r@.len() == xml_outline(content@).0.len(),
{
    let mut reader = Reader::from_str(content);
    let mut names = Vec::new();
    while let Ok(ev) = reader.read_event() {
        match ev {
            Event::Eof => break,
            Event::Start(e) | Event::Empty(e) => names.push(
                String::from_utf8_lossy(e.name().as_ref()).into_owned(),
            ),
            Event::End(e) => names.push(String::from_utf8_lossy(e.name().as_ref()).into_owned()),
            _ => names.push(String::new()),
        }
    }
    names
}

/// `Reader::read_event` over the same text, with `BytesStart::attributes`
/// and `Attribute::unescape_value`: for each event up to the end of the text
/// or the first error, so as many as there are kinds, the attributes that
/// the iterator can read (it passes over the others and goes on), each with
/// its key and its unescaped value.
#[verifier::external_body]
fn read_attrs(content: &str) -> (r: Vec<Vec<(String, Option<String>)>>)
    ensures
        tags_view(r@) == xml_attrs(content@),
        r@.len() == xml_outline(content@).0.len(),
{
    let mut reader = Reader::from_str(content);
    let mut tags = Vec::new();
    while let Ok(ev) = reader.read_event() {
        match ev {
            Event::Eof => break,
            Event::Start(e) | Event::Empty(e) => tags.push(e.attributes().flatten().map(|a| (
                String::from_utf8_lossy(a.key.as_ref()).into_owned(),
                a.unescape_value().ok().map(|v| v.into_owned()),
            )).collect()),
            _ => tags.push(Vec::new()),
        }
    }
    tags
}

/// `Reader::read_event` over the same text, with `BytesText::unescape`: one
/// text, or none, for each event up to the end of the text or the first
/// error, so as many as there are kinds.
#[verifier::external_body]
fn read_texts(content: &str) -> (r: Vec<Option<String>>)
    ensures
        texts_view(r@) == xml_texts(content@),
        r@.len() == xml_outline(content@).0.len(),
{
    let mut reader = Reader::from_str(content);
    let mut texts = Vec::new();
    while let Ok(ev) = reader.read_event() {
        match ev {
            Event::Eof => break,
            Event::Text(e) => texts.push(e.unescape().ok().map(|t| t.into_owned())),
            _ => texts.push(None),
        }
    }
    texts
}

/// Get an attribute value from the attributes of a tag: that of the first
/// attribute with the key.
pub fn get_attr(attrs: &Vec<(String, Option<String>)>, key: &str) -> (value: Option<String>)
    ensures
        text_view(value) == attr_value(attrs_view(attrs@), key@),
{
    let ghost am = attrs_view(attrs@);
    let wanted = key.to_owned();
    let mut i: usize = 0;
    assert(am.skip(0) =~= am);
    while i < attrs.len()
        invariant
            i <= attrs.len(),
            am == attrs_view(attrs@),
            wanted@ == key@,
            attr_value(am, key@) == attr_value(am.skip(i as int), key@),
        decreases attrs.len() - i,
    {
        assert(am.skip(i as int)[0] == attr_view(attrs@[i as int]));
        if attrs[i].0 == wanted {
            return match &attrs[i].1 {
                Some(v) => Some(v.clone()),
                None => None,
            };
        }
        assert(am.skip(i as int).drop_first() =~= am.skip(i + 1));
        i += 1;
    }
    None
}

/// The value of an attribute of a tag, or the empty string where the tag
/// has no such attribute that can be read.
fn attr_or_empty(attrs: &Vec<(String, Option<String>)>, key: &str) -> (value: String)
    ensures
        value@ == or_empty(attr_value(attrs_view(attrs@), key@)),
{
    match get_attr(attrs, key) {
        Some(v) => v,
        None => String::new(),
    }
}

/// The event at a place, put together from what was read of it.
fn plain_event(
    kinds: &Vec<XmlKind>,
    names: &Vec<String>,
    texts: &Vec<Option<String>>,
    tags: &Vec<Vec<(String, Option<String>)>>,
    i: usize,
) -> (r: XmlEvent)
    requires
        i < kinds.len(),
        i < names.len(),
        i < texts.len(),
        i < tags.len(),
    ensures
        r@ == event_at(kinds@, strs(names@), texts_view(texts@), tags_view(tags@), i as int),
{
    let attrs = &tags[i];
    assert(tags_view(tags@)[i as int] == attrs_view(attrs@));
    assert(strs(names@)[i as int] == names@[i as int]@);
    let text = match &texts[i] {
        Some(v) => Some(v.clone()),
        None => None,
    };
    XmlEvent {
        kind: kinds[i],
        name: names[i].clone(),
        id: get_attr(attrs, "rdf:ID"),
        lang: attr_or_empty(attrs, "xml:lang"),
        resource: attr_or_empty(attrs, "rdf:resource"),
        frequency: attr_or_empty(attrs, "frequency"),
        verb_en: attr_or_empty(attrs, "verb_translation_en"),
        verb_uthmani: attr_or_empty(attrs, "verb_uthmani"),
        text,
    }
}

/// The event at a place as the ontology reader reads it: kind, tag name,
/// the attributes `rdf:ID`, `xml:lang`, `rdf:resource`, `frequency`,
/// `verb_translation_en` and `verb_uthmani`, and the text.
pub open spec fn event_at(
    kinds: Seq<XmlKind>,
    names: Seq<Seq<char>>,
    texts: Seq<Option<Seq<char>>>,
    tags: Seq<Seq<(Seq<char>, Option<Seq<char>>)>>,
    i: int,
) -> XmlEventModel {
    XmlEventModel {
        kind: kinds[i],
        name: names[i],
        id: attr_value(tags[i], "rdf:ID"@),
        lang: or_empty(attr_value(tags[i], "xml:lang"@)),
        resource: or_empty(attr_value(tags[i], "rdf:resource"@)),
        frequency: or_empty(attr_value(tags[i], "frequency"@)),
        verb_en: or_empty(attr_value(tags[i], "verb_translation_en"@)),
        verb_uthmani: or_empty(attr_value(tags[i], "verb_uthmani"@)),
        text: texts[i],
    }
}

/// The events that the XML reader finds in a text, as the ontology reader
/// reads them.
pub open spec fn xml_events(content: Seq<char>) -> Seq<XmlEventModel> {
    Seq::new(
        xml_outline(content).0.len(),
        |i: int|
            event_at(
                xml_outline(content).0,
                xml_names(content),
                xml_texts(content),
                xml_attrs(content),
                i,
            ),
    )
}

/// The words that stand before the reader's message in an error.
pub open spec fn error_prefix() -> Seq<char> {
    "XML parse error: "@
}

/// What follows the last `c` in `s`; all of `s` where it holds no `c`.
pub open spec fn after_last(s: Seq<char>, c: char) -> Seq<char>
    decreases s.len(),
{
    if s.len() == 0 || s.last() == c {
        Seq::empty()
    } else {
        after_last(s.drop_last(), c).push(s.last())
    }
}

/// Strip namespace prefix from an XML name.
pub fn strip_prefix(name: &Vec<char>) -> (r: Vec<char>)
    ensures
        r@ == after_last(name@, ':'),
{
    let mut r: Vec<char> = Vec::new();
    let mut i: usize = 0;
    assert(name@.take(0) =~= Seq::<char>::empty());
    while i < name.len()
        invariant
            i <= name.len(),
            r@ == after_last(name@.take(i as int), ':'),
        decreases name.len() - i,
    {
        assert(name@.take(i + 1).drop_last() =~= name@.take(i as int));
        if name[i] == ':' {
            r = Vec::new();
        } else {
            r.push(name[i]);
        }
        i += 1;
    }
    assert(name@.take(name.len() as int) =~= name@);
    r
}

/// The first place at or after `from`, and before the end of `hay`, where
/// `needle` stands in `hay`; the length of `hay` if there is none.
pub open spec fn sub_index_from(hay: Seq<char>, needle: Seq<char>, from: int) -> int
    decreases hay.len() - from,
{
    if from < 0 || from >= hay.len() || from + needle.len() > hay.len() {
        hay.len() as int
    } else if hay.subrange(from, from + needle.len()) == needle {
        from
    } else {
        sub_index_from(hay, needle, from + 1)
    }
}

/// Finds the next occurrence of `needle` in `hay`.
pub fn find_sub(hay: &Vec<char>, needle: &Vec<char>, from: usize) -> (i: usize)
    requires
        from <= hay.len(),
    ensures
        i == sub_index_from(hay@, needle@, from as int),
        from <= i <= hay.len(),
        i < hay.len() ==> i + needle.len() <= hay.len(),
{
    let n = needle.len();
    let mut i: usize = from;
    while i < hay.len() && n <= hay.len() - i
        invariant
            from <= i <= hay.len(),
            n == needle.len(),
            sub_index_from(hay@, needle@, from as int) == sub_index_from(hay@, needle@, i as int),
        decreases hay.len() - i,
    {
        let mut k: usize = 0;
        while k < n && hay[i + k] == needle[k]
            invariant
                k <= n,
                n == needle.len(),
                i + n <= hay.len(),
                forall|j: int| 0 <= j < k ==> hay@[i + j] == needle@[j],
            decreases n - k,
        {
            k += 1;
        }
        if k == n {
            assert(hay@.subrange(i as int, i + n) =~= needle@);
            return i;
        }
        assert(hay@.subrange(i as int, i + n)[k as int] != needle@[k as int]);
        i += 1;
    }
    hay.len()
}

/// The marker that announces a relation in the name of an empty tag.
pub open spec fn relation_marker() -> Seq<char> {
    "objpro:"@
}

/// Whether the name holds the relation marker.
pub open spec fn names_relation(name: Seq<char>) -> bool {
    sub_index_from(name, relation_marker(), 0) < name.len()
}

/// The verb in the name of a relation tag: what stands between the first
/// marker and the next one, or the end.
pub open spec fn verb_of(name: Seq<char>) -> Seq<char> {
    let a = sub_index_from(name, relation_marker(), 0) + relation_marker().len();
    name.subrange(a, sub_index_from(name, relation_marker(), a))
}

/// The number that a text writes, or 0 where it writes none.
pub open spec fn u32_or_zero(s: Seq<char>) -> u32 {
    match parsed(s, 10, 0xffff_ffff) {
        Some(n) => n as u32,
        None => 0,
    }
}

pub fn parse_u32_or_zero(s: &String) -> (n: u32)
    ensures
        n == u32_or_zero(s@),
{
    let v = to_chars(s.as_str());
    match parse_radix(&v, 10, 0xffff_ffff) {
        Some(n) => n as u32,
        None => 0,
    }
}

/// The state of the ontology reader, as plain values.
pub ghost struct OwlModel {
    pub concepts: Seq<ConceptModel>,
    pub relations: Seq<RelationModel>,
    pub in_entity: bool,
    pub entity_tag: Seq<char>,
    pub entity_id: Seq<char>,
    pub label_ar: Seq<char>,
    pub label_en: Seq<char>,
    pub frequency: u32,
    pub root: Seq<char>,
    pub lemma: Seq<char>,
    pub synonyms: Seq<Seq<char>>,
    pub in_obj_prop: bool,
    pub obj_prop_tag: Seq<char>,
    pub child_tag: Seq<char>,
    pub lang: Seq<char>,
}

/// The state of the ontology reader: what was read so far, the entity or
/// object property that is open, and the tag that text belongs to.
pub struct OwlState {
    pub concepts: Vec<Concept>,
    pub relations: Vec<Relation>,
    pub in_entity: bool,
    pub entity_tag: String,
    pub entity_id: String,
    pub label_ar: String,
    pub label_en: String,
    pub frequency: u32,
    pub root: String,
    pub lemma: String,
    pub synonyms: Vec<String>,
    pub in_obj_prop: bool,
    pub obj_prop_tag: String,
    pub child_tag: String,
    pub lang: String,
}

impl View for OwlState {
    type V = OwlModel;

    open spec fn view(&self) -> OwlModel {
        OwlModel {
            concepts: self.concepts@.map_values(|c: Concept| c@),
            relations: self.relations@.map_values(|r: Relation| r@),
            in_entity: self.in_entity,
            entity_tag: self.entity_tag@,
            entity_id: self.entity_id@,
            label_ar: self.label_ar@,
            label_en: self.label_en@,
            frequency: self.frequency,
            root: self.root@,
            lemma: self.lemma@,
            synonyms: strs(self.synonyms@),
            in_obj_prop: self.in_obj_prop,
            obj_prop_tag: self.obj_prop_tag@,
            child_tag: self.child_tag@,
            lang: self.lang@,
        }
    }
}

/// Where the reader starts: nothing read, nothing open.
pub open spec fn owl_start() -> OwlModel {
    OwlModel {
        concepts: Seq::empty(),
        relations: Seq::empty(),
        in_entity: false,
        entity_tag: Seq::empty(),
        entity_id: Seq::empty(),
        label_ar: Seq::empty(),
        label_en: Seq::empty(),
        frequency: 0,
        root: Seq::empty(),
        lemma: Seq::empty(),
        synonyms: Seq::empty(),
        in_obj_prop: false,
        obj_prop_tag: Seq::empty(),
        child_tag: Seq::empty(),
        lang: Seq::empty(),
    }
}

/// A start tag: outside any entity or object property, an `ObjectProperty`
/// opens an object property and any other tag with an `rdf:ID` opens an
/// entity with that id; in every case the tag becomes the one that text
/// belongs to, with its language.
pub open spec fn on_start(s: OwlModel, e: XmlEventModel) -> OwlModel {
    let local = after_last(e.name, ':');
    let opened = if s.in_entity || s.in_obj_prop {
        s
    } else if local == "ObjectProperty"@ {
        OwlModel { in_obj_prop: true, obj_prop_tag: e.name, ..s }
    } else if e.id is Some {
        OwlModel {
            in_entity: true,
            entity_tag: e.name,
            entity_id: e.id.unwrap(),
            label_ar: Seq::empty(),
            label_en: Seq::empty(),
            frequency: 0,
            root: Seq::empty(),
            lemma: Seq::empty(),
            synonyms: Seq::empty(),
            ..s
        }
    } else {
        s
    };
    OwlModel { child_tag: local, lang: e.lang, ..opened }
}

/// An empty tag: inside an entity, a tag whose name holds the relation
/// marker adds a relation from the entity.
pub open spec fn on_empty(s: OwlModel, e: XmlEventModel) -> OwlModel {
    if s.in_entity && names_relation(e.name) {
        OwlModel {
            relations: s.relations.push(
                RelationModel {
                    subject: s.entity_id,
                    verb: verb_of(e.name),
                    object: e.resource,
                    frequency: u32_or_zero(e.frequency),
                    verb_en: e.verb_en,
                    verb_uthmani: e.verb_uthmani,
                },
            ),
            ..s
        }
    } else {
        s
    }
}

/// A text: inside an entity, a text that is not empty fills the field that
/// the open tag names.
pub open spec fn on_text(s: OwlModel, e: XmlEventModel) -> OwlModel {
    if e.text is None || e.text.unwrap().len() == 0 || !s.in_entity {
        s
    } else {
        let t = e.text.unwrap();
        if s.child_tag == "label"@ {
            if s.lang == "AR"@ {
                OwlModel { label_ar: t, ..s }
            } else if s.lang == "EN"@ {
                OwlModel { label_en: t, ..s }
            } else {
                s
            }
        } else if s.child_tag == "frequency"@ {
            OwlModel { frequency: u32_or_zero(t), ..s }
        } else if s.child_tag == "root"@ {
            OwlModel { root: t, ..s }
        } else if s.child_tag == "lemma"@ {
            OwlModel { lemma: t, ..s }
        } else if "synonym"@.is_prefix_of(s.child_tag) {
            OwlModel { synonyms: s.synonyms.push(t), ..s }
        } else {
            s
        }
    }
}

/// An end tag: the tag that opened the entity closes it, and the entity
/// becomes a concept unless its id is empty; the tag that opened the object
/// property closes it; in every case no tag is open for text any more.
pub open spec fn on_end(s: OwlModel, e: XmlEventModel) -> OwlModel {
    let closed = if s.in_entity && e.name == s.entity_tag {
        OwlModel {
            concepts: if s.entity_id.len() > 0 {
                s.concepts.push(
                    ConceptModel {
                        id: s.entity_id,
                        label_ar: s.label_ar,
                        label_en: s.label_en,
                        frequency: s.frequency,
                        root: s.root,
                        lemma: s.lemma,
                        synonyms: s.synonyms,
                    },
                )
            } else {
                s.concepts
            },
            in_entity: false,
            entity_tag: Seq::empty(),
            ..s
        }
    } else if s.in_obj_prop && e.name == s.obj_prop_tag {
        OwlModel { in_obj_prop: false, obj_prop_tag: Seq::empty(), ..s }
    } else {
        s
    };
    OwlModel { child_tag: Seq::empty(), ..closed }
}

/// The state after an event.
pub open spec fn owl_step(s: OwlModel, e: XmlEventModel) -> OwlModel {
    match e.kind {
        XmlKind::Start => on_start(s, e),
        XmlKind::Empty => on_empty(s, e),
        XmlKind::Text => on_text(s, e),
        XmlKind::End => on_end(s, e),
        XmlKind::Other => s,
    }
}

/// The state after the events, one after another.
pub open spec fn owl_run(evs: Seq<XmlEventModel>) -> OwlModel
    decreases evs.len(),
{
    if evs.len() == 0 {
        owl_start()
    } else {
        owl_step(owl_run(evs.drop_last()), evs.last())
    }
}

impl OwlState {
    /// Where the reader starts.
    pub fn new() -> (s: OwlState)
        ensures
            s@ == owl_start(),
    {
        let s = OwlState {
            concepts: Vec::new(),
            relations: Vec::new(),
            in_entity: false,
            entity_tag: String::new(),
            entity_id: String::new(),
            label_ar: String::new(),
            label_en: String::new(),
            frequency: 0,
            root: String::new(),
            lemma: String::new(),
            synonyms: Vec::new(),
            in_obj_prop: false,
            obj_prop_tag: String::new(),
            child_tag: String::new(),
            lang: String::new(),
        };
        assert(s@.concepts =~= Seq::<ConceptModel>::empty());
        assert(s@.relations =~= Seq::<RelationModel>::empty());
        assert(s@.synonyms =~= Seq::<Seq<char>>::empty());
        s
    }

    fn start(&mut self, e: &XmlEvent)
        ensures
            final(self)@ == on_start(old(self)@, e@),
    {
        let name = to_chars(e.name.as_str());
        let local = from_chars(&strip_prefix(&name));
        if !self.in_entity && !self.in_obj_prop {
            if local == "ObjectProperty".to_owned() {
                self.in_obj_prop = true;
                self.obj_prop_tag = e.name.clone();
            } else {
                match &e.id {
                    Some(id) => {
                        self.in_entity = true;
                        self.entity_tag = e.name.clone();
                        self.entity_id = id.clone();
                        self.label_ar = String::new();
                        self.label_en = String::new();
                        self.frequency = 0;
                        self.root = String::new();
                        self.lemma = String::new();
                        self.synonyms = Vec::new();
                        assert(strs(self.synonyms@) =~= Seq::<Seq<char>>::empty());
                    },
                    None => {},
                }
            }
        }
        self.child_tag = local;
        self.lang = e.lang.clone();
    }

    fn empty(&mut self, e: &XmlEvent)
        ensures
            final(self)@ == on_empty(old(self)@, e@),
    {
        if !self.in_entity {
            return ;
        }
        let name = to_chars(e.name.as_str());
        let marker = to_chars("objpro:");
        let first = find_sub(&name, &marker, 0);
        if first < name.len() {
            let a = first + marker.len();
            let b = find_sub(&name, &marker, a);
            let verb = copy_range(&name, a, b);
            let rel = Relation {
                subject: self.entity_id.clone(),
                verb: from_chars(&verb),
                object: e.resource.clone(),
                frequency: parse_u32_or_zero(&e.frequency),
                verb_en: e.verb_en.clone(),
                verb_uthmani: e.verb_uthmani.clone(),
            };
            let ghost before = self.relations@;
            self.relations.push(rel);
            assert(self.relations@.map_values(|r: Relation| r@) =~= before.map_values(
                |r: Relation| r@,
            ).push(rel@));
        }
    }

    fn text(&mut self, e: &XmlEvent)
        ensures
            final(self)@ == on_text(old(self)@, e@),
    {
        match &e.text {
            None => {},
            Some(t) => {
                if t.as_str().unicode_len() == 0 || !self.in_entity {
                    return ;
                }
                let tag = to_chars(self.child_tag.as_str());
                if self.child_tag == "label".to_owned() {
                    if self.lang == "AR".to_owned() {
                        self.label_ar = t.clone();
                    } else if self.lang == "EN".to_owned() {
                        self.label_en = t.clone();
                    }
                } else if self.child_tag == "frequency".to_owned() {
                    self.frequency = parse_u32_or_zero(t);
                } else if self.child_tag == "root".to_owned() {
                    self.root = t.clone();
                } else if self.child_tag == "lemma".to_owned() {
                    self.lemma = t.clone();
                } else if starts_with(&tag, &to_chars("synonym")) {
                    let ghost before = self.synonyms@;
                    self.synonyms.push(t.clone());
                    assert(strs(self.synonyms@) =~= strs(before).push(t@));
                }
            },
        }
    }

    fn end(&mut self, e: &XmlEvent)
        ensures
            final(self)@ == on_end(old(self)@, e@),
    {
        if self.in_entity && e.name == self.entity_tag {
            if self.entity_id.as_str().unicode_len() > 0 {
                let c = Concept {
                    id: self.entity_id.clone(),
                    label_ar: self.label_ar.clone(),
                    label_en: self.label_en.clone(),
                    frequency: self.frequency,
                    root: self.root.clone(),
                    lemma: self.lemma.clone(),
                    synonyms: clone_words(&self.synonyms),
                };
                let ghost before = self.concepts@;
                self.concepts.push(c);
                assert(self.concepts@.map_values(|c: Concept| c@) =~= before.map_values(
                    |c: Concept| c@,
                ).push(c@));
            }
            self.in_entity = false;
            self.entity_tag = String::new();
        } else if self.in_obj_prop && e.name == self.obj_prop_tag {
            self.in_obj_prop = false;
            self.obj_prop_tag = String::new();
        }
        self.child_tag = String::new();
    }

    /// Takes in one event.
    pub fn step(&mut self, e: &XmlEvent)
        ensures
            final(self)@ == owl_step(old(self)@, e@),
    {
        match e.kind {
            XmlKind::Start => self.start(e),
            XmlKind::Empty => self.empty(e),
            XmlKind::Text => self.text(e),
            XmlKind::End => self.end(e),
            XmlKind::Other => {},
        }
    }
}

/// The concepts and relations that a sequence of XML events writes.
pub fn parse_owl_events(events: &Vec<XmlEvent>) -> (r: (Vec<Concept>, Vec<Relation>))
    ensures
        r.0@.map_values(|c: Concept| c@) == owl_run(events@.map_values(|e: XmlEvent| e@)).concepts,
        r.1@.map_values(|x: Relation| x@) == owl_run(
            events@.map_values(|e: XmlEvent| e@),
        ).relations,
{
    let ghost evs = events@.map_values(|e: XmlEvent| e@);
    let mut state = OwlState::new();
    let mut i: usize = 0;
    assert(evs.take(0) =~= Seq::<XmlEventModel>::empty());
    while i < events.len()
        invariant
            i <= events.len(),
            evs == events@.map_values(|e: XmlEvent| e@),
            state@ == owl_run(evs.take(i as int)),
        decreases events.len() - i,
    {
        proof {
            assert(evs.take(i + 1).drop_last() =~= evs.take(i as int));
            assert(evs.take(i + 1).last() == events@[i as int]@);
        }
        state.step(&events[i]);
        i += 1;
    }
    assert(evs.take(events.len() as int) =~= evs);
    (state.concepts, state.relations)
}

/// Parse OWL XML content from a string. Where the XML reader reports an
/// error in the text, its message is returned behind the words
/// `XML parse error: `; else the concepts and relations that the events of
/// the text write.
pub fn parse_owl_str(content: &str) -> (r: Result<(Vec<Concept>, Vec<Relation>), String>)
    ensures
        match xml_outline(content@).1 {
            Some(message) => r is Err && r->Err_0@ == error_prefix() + message,
            None => r is Ok && r->Ok_0.0@.map_values(|c: Concept| c@) == owl_run(
                xml_events(content@),
            ).concepts && r->Ok_0.1@.map_values(|x: Relation| x@) == owl_run(
                xml_events(content@),
            ).relations,
        },
{
    let (kinds, error) = read_outline(content);
    match error {
        Some(message) => Err("XML parse error: ".to_owned().concat(message.as_str())),
        None => {
            let names = read_names(content);
            let texts = read_texts(content);
            let tags = read_attrs(content);
            let ghost target = xml_events(content@);
            let mut events: Vec<XmlEvent> = Vec::new();
            let mut i: usize = 0;
            assert(events@.map_values(|e: XmlEvent| e@) =~= target.take(0));
            while i < kinds.len()
                invariant
                    i <= kinds.len(),
                    target == xml_events(content@),
                    kinds@ == xml_outline(content@).0,
                    names@.len() == kinds@.len(),
                    texts@.len() == kinds@.len(),
                    tags@.len() == kinds@.len(),
                    strs(names@) == xml_names(content@),
                    texts_view(texts@) == xml_texts(content@),
                    tags_view(tags@) == xml_attrs(content@),
                    events@.map_values(|e: XmlEvent| e@) == target.take(i as int),
                decreases kinds.len() - i,
            {
                let e = plain_event(&kinds, &names, &texts, &tags, i);
                let ghost before = events@;
                assert(e@ == target[i as int]);
                events.push(e);
                assert(events@.map_values(|e: XmlEvent| e@) =~= before.map_values(
                    |e: XmlEvent| e@,
                ).push(e@));
                assert(events@.map_values(|e: XmlEvent| e@) =~= target.take(i + 1));
                i += 1;
            }
            assert(target.take(kinds.len() as int) =~= target);
            let pair = parse_owl_events(&events);
            Ok(pair)
        },
    }
}

} // verus!
