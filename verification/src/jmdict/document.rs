//! The entries of a JMdict document, gathered from the events of its XML.

use crate::jmdict::readings::{is_valid_surface, valid_surface};
use crate::jmdict::xml::{
    attribute_value, attribute_view, attribute_views, decode, decode_value, decoded,
    document_events, open_document, read_event, unescape, unescaped, unread, EventView,
    RawAttribute, XmlEvent,
};
use crate::text::{
    begins_with, chars_of, same_text, starts_with, text_of, texts, texts_push, trim, trimmed,
};
use crate::views::{views, views_push};
use vstd::prelude::*;

verus! {

/// A reading of an entry, with its priority markers.
pub struct RawReading {
    pub text: String,
    pub priorities: Vec<String>,
}

#[verifier::ext_equal]
pub struct ReadingView {
    pub text: Seq<char>,
    pub priorities: Seq<Seq<char>>,
}

impl View for RawReading {
    type V = ReadingView;

    open spec fn view(&self) -> ReadingView {
        ReadingView { text: self.text@, priorities: texts(self.priorities@) }
    }
}

/// A sense of an entry: the readings that it is restricted to, its English sources and its
/// English glosses.
pub struct RawSense {
    pub restrictions: Vec<String>,
    pub sources: Vec<String>,
    pub glosses: Vec<String>,
}

#[verifier::ext_equal]
pub struct SenseView {
    pub restrictions: Set<Seq<char>>,
    pub sources: Seq<Seq<char>>,
    pub glosses: Seq<Seq<char>>,
}

impl View for RawSense {
    type V = SenseView;

    open spec fn view(&self) -> SenseView {
        SenseView {
            restrictions: texts(self.restrictions@).to_set(),
            sources: texts(self.sources@),
            glosses: texts(self.glosses@),
        }
    }
}

/// An entry of JMdict.
pub struct RawEntry {
    pub sequence: String,
    pub readings: Vec<RawReading>,
    pub entry_sources: Vec<String>,
    pub senses: Vec<RawSense>,
}

#[verifier::ext_equal]
pub struct RawEntryView {
    pub sequence: Seq<char>,
    pub readings: Seq<ReadingView>,
    pub entry_sources: Seq<Seq<char>>,
    pub senses: Seq<SenseView>,
}

impl View for RawEntry {
    type V = RawEntryView;

    open spec fn view(&self) -> RawEntryView {
        RawEntryView {
            sequence: self.sequence@,
            readings: views(self.readings@),
            entry_sources: texts(self.entry_sources@),
            senses: views(self.senses@),
        }
    }
}

/// What the text of the element that is open is for.
#[derive(Clone, Copy, Debug, PartialEq, Eq, Structural)]
pub enum TextTarget {
    Sequence,
    Reading,
    Priority,
    Restriction,
    Gloss,
    LanguageSource,
}

impl TextTarget {
    /// The name of the element that ends the text.
    pub open spec fn element_name(self) -> Seq<char> {
        match self {
            TextTarget::Sequence => "ent_seq"@,
            TextTarget::Reading => "reb"@,
            TextTarget::Priority => "re_pri"@,
            TextTarget::Restriction => "stagr"@,
            TextTarget::Gloss => "gloss"@,
            TextTarget::LanguageSource => "lsource"@,
        }
    }

    /// The name of the element that ends the text.
    pub fn element(self) -> (name: &'static str)
        ensures
            name@ == self.element_name(),
    {
        match self {
            TextTarget::Sequence => "ent_seq",
            TextTarget::Reading => "reb",
            TextTarget::Priority => "re_pri",
            TextTarget::Restriction => "stagr",
            TextTarget::Gloss => "gloss",
            TextTarget::LanguageSource => "lsource",
        }
    }
}

/// What is wrong with a document.
#[derive(Clone, Copy, Debug, PartialEq, Eq, Structural)]
pub enum DocumentFault {
    Markup,
    Attribute,
    Value,
    Encoding,
    Reference,
}

/// Why a document cannot be read.
#[derive(Debug)]
pub enum DocumentError {
    /// The markup is not well-formed.
    Markup(quick_xml::Error),
    /// A tag is malformed at an attribute.
    Attribute,
    /// The value of an attribute cannot be decoded.
    Value,
    /// A text is not UTF-8.
    Encoding,
    /// A reference in a text is unknown or malformed.
    Reference,
}

impl View for DocumentError {
    type V = DocumentFault;

    open spec fn view(&self) -> DocumentFault {
        match self {
            DocumentError::Markup(_) => DocumentFault::Markup,
            DocumentError::Attribute => DocumentFault::Attribute,
            DocumentError::Value => DocumentFault::Value,
            DocumentError::Encoding => DocumentFault::Encoding,
            DocumentError::Reference => DocumentFault::Reference,
        }
    }
}

/// The bytes are the name.
pub open spec fn is_named(bytes: Seq<u8>, name: Seq<char>) -> bool {
    bytes == vstd::utf8::encode_utf8(name)
}

fn named(bytes: &[u8], name: &str) -> (same: bool)
    ensures
        same == is_named(bytes@, name@),
{
    let wanted = name.as_bytes();
    if bytes.len() != wanted.len() {
        return false;
    }
    let mut i: usize = 0;
    while i < bytes.len()
        invariant
            wanted@ == vstd::utf8::encode_utf8(name@),
            bytes@.len() == wanted@.len(),
            i <= bytes@.len(),
            forall|j: int| 0 <= j < i ==> bytes@[j] == wanted@[j],
        decreases bytes@.len() - i,
    {
        if bytes[i] != wanted[i] {
            return false;
        }
        i += 1;
    }
    assert(bytes@ =~= wanted@);
    true
}

/// The value of the first attribute of a name, among the attributes from `start` on.
pub open spec fn attribute_from(
    attributes: Seq<Option<(Seq<u8>, Seq<u8>)>>,
    start: int,
    name: Seq<char>,
) -> Result<Option<Seq<char>>, DocumentFault>
    decreases attributes.len() - start,
{
    if start >= attributes.len() {
        Ok(None)
    } else {
        match attributes[start] {
            Some((key, raw)) => if is_named(key, name) {
                match attribute_value(raw) {
                    Some(value) => Ok(Some(value)),
                    None => Err(DocumentFault::Value),
                }
            } else {
                attribute_from(attributes, start + 1, name)
            },
            None => Err(DocumentFault::Attribute),
        }
    }
}

fn attribute(attributes: &[RawAttribute], name: &str) -> (result: Result<
    Option<String>,
    DocumentError,
>)
    ensures
        match result {
            Ok(Some(value)) => attribute_from(attribute_views(attributes@), 0, name@) == Ok::<
                _,
                DocumentFault,
            >(Some(value@)),
            Ok(None) => attribute_from(attribute_views(attributes@), 0, name@) == Ok::<
                Option<Seq<char>>,
                DocumentFault,
            >(None),
            Err(error) => attribute_from(attribute_views(attributes@), 0, name@) == Err::<
                Option<Seq<char>>,
                _,
            >(error@),
        },
{
    let ghost all = attribute_views(attributes@);
    let mut i: usize = 0;
    while i < attributes.len()
        invariant
            all == attribute_views(attributes@),
            i <= attributes@.len(),
            attribute_from(all, 0, name@) == attribute_from(all, i as int, name@),
        decreases attributes@.len() - i,
    {
        assert(all[i as int] == attribute_view(attributes@[i as int]));
        match &attributes[i] {
            Some((key, raw)) => {
                if named(key, name) {
                    return match decode_value(raw) {
                        Some(value) => Ok(Some(value)),
                        None => Err(DocumentError::Value),
                    };
                }
            },
            None => {
                return Err(DocumentError::Attribute);
            },
        }
        i += 1;
    }
    Ok(None)
}

/// An attribute, or what stands for it where it is missing.
pub open spec fn value_or(value: Option<Seq<char>>, default: Seq<char>) -> Seq<char> {
    match value {
        Some(value) => value,
        None => default,
    }
}

/// A gloss that is English and no explanation.
pub open spec fn is_english_gloss(
    attributes: Seq<Option<(Seq<u8>, Seq<u8>)>>,
) -> Result<bool, DocumentFault> {
    match attribute_from(attributes, 0, "xml:lang"@) {
        Ok(language) => match attribute_from(attributes, 0, "g_type"@) {
            Ok(kind) => Ok(value_or(language, "eng"@) == "eng"@ && kind != Some("expl"@)),
            Err(fault) => Err(fault),
        },
        Err(fault) => Err(fault),
    }
}

/// A source word that is English and covers the whole word.
pub open spec fn is_full_english_source(
    attributes: Seq<Option<(Seq<u8>, Seq<u8>)>>,
) -> Result<bool, DocumentFault> {
    match attribute_from(attributes, 0, "xml:lang"@) {
        Ok(language) => match attribute_from(attributes, 0, "ls_type"@) {
            Ok(kind) => Ok(
                value_or(language, "eng"@) == "eng"@ && value_or(kind, "full"@) == "full"@,
            ),
            Err(fault) => Err(fault),
        },
        Err(fault) => Err(fault),
    }
}

/// Whether a gloss is English and no explanation.
pub fn english_gloss(attributes: &[RawAttribute]) -> (result: Result<bool, DocumentError>)
    ensures
        match result {
            Ok(english) => is_english_gloss(attribute_views(attributes@)) == Ok::<_, DocumentFault>(
                english,
            ),
            Err(error) => is_english_gloss(attribute_views(attributes@)) == Err::<bool, _>(error@),
        },
{
    let language = match attribute(attributes, "xml:lang") {
        Ok(language) => language,
        Err(error) => {
            return Err(error);
        },
    };
    let kind = match attribute(attributes, "g_type") {
        Ok(kind) => kind,
        Err(error) => {
            return Err(error);
        },
    };
    let english = match language {
        Some(language) => same_text(language.as_str(), "eng"),
        None => true,
    };
    let explains = match kind {
        Some(kind) => same_text(kind.as_str(), "expl"),
        None => false,
    };
    Ok(english && !explains)
}

/// Whether a source word is English and covers the whole word.
pub fn full_english_source(attributes: &[RawAttribute]) -> (result: Result<bool, DocumentError>)
    ensures
        match result {
            Ok(english) => is_full_english_source(attribute_views(attributes@)) == Ok::<
                _,
                DocumentFault,
            >(english),
            Err(error) => is_full_english_source(attribute_views(attributes@)) == Err::<bool, _>(
                error@,
            ),
        },
{
    let language = match attribute(attributes, "xml:lang") {
        Ok(language) => language,
        Err(error) => {
            return Err(error);
        },
    };
    let kind = match attribute(attributes, "ls_type") {
        Ok(kind) => kind,
        Err(error) => {
            return Err(error);
        },
    };
    let english = match language {
        Some(language) => same_text(language.as_str(), "eng"),
        None => true,
    };
    let full = match kind {
        Some(kind) => same_text(kind.as_str(), "full"),
        None => true,
    };
    Ok(english && full)
}

/// What has been read of a document: the elements that are open, the text of the innermost one,
/// the date of the document, and the entries that are complete.
pub struct Document {
    pub entry: Option<RawEntry>,
    pub reading: Option<RawReading>,
    pub sense: Option<RawSense>,
    pub target: Option<TextTarget>,
    pub text: String,
    pub created: String,
    pub entries: Vec<RawEntry>,
}

#[verifier::ext_equal]
pub struct DocumentView {
    pub entry: Option<RawEntryView>,
    pub reading: Option<ReadingView>,
    pub sense: Option<SenseView>,
    pub target: Option<TextTarget>,
    pub text: Seq<char>,
    pub created: Seq<char>,
    pub entries: Seq<RawEntryView>,
}

/// The contents of a value that need not be there.
pub open spec fn optional_view<T: View>(value: Option<T>) -> Option<T::V> {
    match value {
        Some(value) => Some(value@),
        None => None,
    }
}

impl View for Document {
    type V = DocumentView;

    open spec fn view(&self) -> DocumentView {
        DocumentView {
            entry: optional_view(self.entry),
            reading: optional_view(self.reading),
            sense: optional_view(self.sense),
            target: self.target,
            text: self.text@,
            created: self.created@,
            entries: views(self.entries@),
        }
    }
}

/// A reading of which nothing is known yet.
pub open spec fn empty_reading() -> ReadingView {
    ReadingView { text: Seq::empty(), priorities: Seq::empty() }
}

/// A sense of which nothing is known yet.
pub open spec fn empty_sense() -> SenseView {
    SenseView { restrictions: Set::empty(), sources: Seq::empty(), glosses: Seq::empty() }
}

/// An entry of which nothing is known yet.
pub open spec fn empty_entry() -> RawEntryView {
    RawEntryView {
        sequence: Seq::empty(),
        readings: Seq::empty(),
        entry_sources: Seq::empty(),
        senses: Seq::empty(),
    }
}

/// A document of which nothing has been read.
pub open spec fn unread_document() -> DocumentView {
    DocumentView {
        entry: None,
        reading: None,
        sense: None,
        target: None,
        text: Seq::empty(),
        created: Seq::empty(),
        entries: Seq::empty(),
    }
}

/// The document with an element open whose text is wanted.
pub open spec fn expecting(document: DocumentView, target: TextTarget) -> DocumentView {
    DocumentView { target: Some(target), text: Seq::empty(), ..document }
}

/// The document after the tag that opens an element.
pub open spec fn opened(
    document: DocumentView,
    name: Seq<u8>,
    attributes: Seq<Option<(Seq<u8>, Seq<u8>)>>,
) -> Result<DocumentView, DocumentFault> {
    if is_named(name, "entry"@) {
        Ok(DocumentView { entry: Some(empty_entry()), ..document })
    } else if is_named(name, "r_ele"@) {
        Ok(DocumentView { reading: Some(empty_reading()), ..document })
    } else if is_named(name, "sense"@) {
        Ok(DocumentView { sense: Some(empty_sense()), ..document })
    } else if is_named(name, "ent_seq"@) {
        Ok(expecting(document, TextTarget::Sequence))
    } else if is_named(name, "reb"@) {
        Ok(expecting(document, TextTarget::Reading))
    } else if is_named(name, "re_pri"@) {
        Ok(expecting(document, TextTarget::Priority))
    } else if is_named(name, "stagr"@) {
        Ok(expecting(document, TextTarget::Restriction))
    } else if is_named(name, "gloss"@) {
        match is_english_gloss(attributes) {
            Ok(true) => Ok(expecting(document, TextTarget::Gloss)),
            Ok(false) => Ok(document),
            Err(fault) => Err(fault),
        }
    } else if is_named(name, "lsource"@) {
        match is_full_english_source(attributes) {
            Ok(true) => Ok(expecting(document, TextTarget::LanguageSource)),
            Ok(false) => Ok(document),
            Err(fault) => Err(fault),
        }
    } else {
        Ok(document)
    }
}

/// The document after text, in which references are resolved unless it is `literal`.
pub open spec fn with_text(document: DocumentView, content: Seq<u8>, literal: bool) -> Result<
    DocumentView,
    DocumentFault,
> {
    if document.target is None {
        Ok(document)
    } else {
        match decoded(content) {
            Some(text) => if literal {
                Ok(DocumentView { text: document.text + text, ..document })
            } else {
                match unescaped(text) {
                    Some(plain) => Ok(DocumentView { text: document.text + plain, ..document }),
                    None => Err(DocumentFault::Reference),
                }
            },
            None => Err(DocumentFault::Encoding),
        }
    }
}

/// The document after a comment: the first one that dates it counts.
pub open spec fn with_comment(document: DocumentView, content: Seq<u8>) -> Result<
    DocumentView,
    DocumentFault,
> {
    if document.created.len() > 0 {
        Ok(document)
    } else {
        match decoded(content) {
            Some(text) => {
                let shown = trim(text);
                if begins_with(shown, "JMdict created:"@) {
                    Ok(
                        DocumentView {
                            created: trim(shown.skip("JMdict created:"@.len() as int)),
                            ..document
                        },
                    )
                } else {
                    Ok(document)
                }
            },
            None => Err(DocumentFault::Encoding),
        }
    }
}

/// The document with the text of an element put where it belongs.
pub open spec fn with_field(
    document: DocumentView,
    target: TextTarget,
    text: Seq<char>,
) -> DocumentView {
    let shown = trim(text);
    if shown.len() == 0 {
        document
    } else {
        match target {
            TextTarget::Sequence => match document.entry {
                Some(entry) => DocumentView {
                    entry: Some(RawEntryView { sequence: shown, ..entry }),
                    ..document
                },
                None => document,
            },
            TextTarget::Reading => match document.reading {
                Some(reading) => DocumentView {
                    reading: Some(ReadingView { text: shown, ..reading }),
                    ..document
                },
                None => document,
            },
            TextTarget::Priority => match document.reading {
                Some(reading) => DocumentView {
                    reading: Some(
                        ReadingView { priorities: reading.priorities.push(shown), ..reading },
                    ),
                    ..document
                },
                None => document,
            },
            TextTarget::Restriction => match document.sense {
                Some(sense) => DocumentView {
                    sense: Some(
                        SenseView { restrictions: sense.restrictions.insert(shown), ..sense },
                    ),
                    ..document
                },
                None => document,
            },
            TextTarget::Gloss => match document.sense {
                Some(sense) if is_valid_surface(shown) => DocumentView {
                    sense: Some(SenseView { glosses: sense.glosses.push(shown), ..sense }),
                    ..document
                },
                _ => document,
            },
            TextTarget::LanguageSource => if !is_valid_surface(shown) {
                document
            } else {
                match (document.sense, document.entry) {
                    (Some(sense), _) => DocumentView {
                        sense: Some(SenseView { sources: sense.sources.push(shown), ..sense }),
                        ..document
                    },
                    (None, Some(entry)) => DocumentView {
                        entry: Some(
                            RawEntryView {
                                entry_sources: entry.entry_sources.push(shown),
                                ..entry
                            },
                        ),
                        ..document
                    },
                    (None, None) => document,
                }
            },
        }
    }
}

/// The document with the text that ends with an element put where it belongs.
pub open spec fn with_ended_text(document: DocumentView, name: Seq<u8>) -> DocumentView {
    match document.target {
        Some(target) if is_named(name, target.element_name()) => with_field(
            DocumentView { target: None, text: Seq::empty(), ..document },
            target,
            document.text,
        ),
        _ => document,
    }
}

/// The document with the element that ends put into the one around it.
pub open spec fn with_ended_element(document: DocumentView, name: Seq<u8>) -> DocumentView {
    if is_named(name, "r_ele"@) {
        DocumentView {
            entry: match (document.entry, document.reading) {
                (Some(entry), Some(reading)) => Some(
                    RawEntryView { readings: entry.readings.push(reading), ..entry },
                ),
                (entry, _) => entry,
            },
            reading: None,
            ..document
        }
    } else if is_named(name, "sense"@) {
        DocumentView {
            entry: match (document.entry, document.sense) {
                (Some(entry), Some(sense)) => Some(
                    RawEntryView { senses: entry.senses.push(sense), ..entry },
                ),
                (entry, _) => entry,
            },
            sense: None,
            ..document
        }
    } else if is_named(name, "entry"@) {
        DocumentView {
            entry: None,
            entries: match document.entry {
                Some(entry) => document.entries.push(entry),
                None => document.entries,
            },
            ..document
        }
    } else {
        document
    }
}

/// The document after one more event.
pub open spec fn after_event(document: DocumentView, event: EventView) -> Result<
    DocumentView,
    DocumentFault,
> {
    match event {
        EventView::Start { name, attributes } => opened(document, name, attributes),
        EventView::Empty { name, attributes } => if is_named(name, "gloss"@) {
            match is_english_gloss(attributes) {
                Ok(_) => Ok(document),
                Err(fault) => Err(fault),
            }
        } else {
            Ok(document)
        },
        EventView::Text(content) => with_text(document, content, false),
        EventView::CData(content) => with_text(document, content, true),
        EventView::Comment(content) => with_comment(document, content),
        EventView::End { name } => Ok(with_ended_element(with_ended_text(document, name), name)),
        EventView::Eof => Ok(document),
        EventView::Other => Ok(document),
    }
}

/// The document after all the events, or the fault that the first error of markup or the first
/// event that does not fit gives.
pub open spec fn after_events(events: Seq<Option<EventView>>) -> Result<
    DocumentView,
    DocumentFault,
>
    decreases events.len(),
{
    if events.len() == 0 {
        Ok(unread_document())
    } else {
        match after_events(events.drop_last()) {
            Ok(document) => match events.last() {
                Some(event) => after_event(document, event),
                None => Err(DocumentFault::Markup),
            },
            Err(fault) => Err(fault),
        }
    }
}

/// The first fault is the fault of the whole.
proof fn first_fault_counts(events: Seq<Option<EventView>>, count: int)
    requires
        0 <= count <= events.len(),
        after_events(events.take(count)) is Err,
    ensures
        after_events(events) == after_events(events.take(count)),
    decreases events.len(),
{
    if count < events.len() {
        assert(events.drop_last().take(count) =~= events.take(count));
        first_fault_counts(events.drop_last(), count);
    } else {
        assert(events.take(count) =~= events);
    }
}

/// Adding a text to a list adds it to the set of its texts.
proof fn set_push(list: Seq<Seq<char>>, text: Seq<char>)
    ensures
        list.push(text).to_set() == list.to_set().insert(text),
{
    let longer = list.push(text);
    assert forall|other: Seq<char>| #[trigger] longer.to_set().contains(other)
        == list.to_set().insert(text).contains(other) by {
        assert(longer[list.len() as int] == text);
        if list.contains(other) {
            assert(longer[list.index_of(other)] == other);
        }
        if longer.contains(other) && other != text {
            assert(list[longer.index_of(other)] == other);
        }
    }
    assert(longer.to_set() =~= list.to_set().insert(text));
}

impl Document {
    /// A document of which nothing has been read.
    pub fn new() -> (document: Document)
        ensures
            document@ == unread_document(),
    {
        let document = Document {
            entry: None,
            reading: None,
            sense: None,
            target: None,
            text: String::new(),
            created: String::new(),
            entries: Vec::new(),
        };
        assert(document@ =~= unread_document());
        document
    }

    fn begin_text(&mut self, target: TextTarget)
        ensures
            final(self)@ == expecting(old(self)@, target),
    {
        self.target = Some(target);
        self.text = String::new();
        assert(self@ =~= expecting(old(self)@, target));
    }

    fn open_element(&mut self, name: &[u8], attributes: &[RawAttribute]) -> (result: Result<
        (),
        DocumentError,
    >)
        ensures
            match result {
                Ok(_) => opened(old(self)@, name@, attribute_views(attributes@)) == Ok::<
                    _,
                    DocumentFault,
                >(final(self)@),
                Err(error) => opened(old(self)@, name@, attribute_views(attributes@)) == Err::<
                    DocumentView,
                    _,
                >(error@) && final(self)@ == old(self)@,
            },
    {
        if named(name, "entry") {
            let entry = RawEntry {
                sequence: String::new(),
                readings: Vec::new(),
                entry_sources: Vec::new(),
                senses: Vec::new(),
            };
            assert(entry@ =~= empty_entry());
            self.entry = Some(entry);
        } else if named(name, "r_ele") {
            let reading = RawReading { text: String::new(), priorities: Vec::new() };
            assert(reading@ =~= empty_reading());
            self.reading = Some(reading);
        } else if named(name, "sense") {
            let sense = RawSense {
                restrictions: Vec::new(),
                sources: Vec::new(),
                glosses: Vec::new(),
            };
            assert(sense@ =~= empty_sense());
            self.sense = Some(sense);
        } else if named(name, "ent_seq") {
            self.begin_text(TextTarget::Sequence);
        } else if named(name, "reb") {
            self.begin_text(TextTarget::Reading);
        } else if named(name, "re_pri") {
            self.begin_text(TextTarget::Priority);
        } else if named(name, "stagr") {
            self.begin_text(TextTarget::Restriction);
        } else if named(name, "gloss") {
            match english_gloss(attributes) {
                Ok(english) => {
                    if english {
                        self.begin_text(TextTarget::Gloss);
                    }
                },
                Err(error) => {
                    return Err(error);
                },
            }
        } else if named(name, "lsource") {
            match full_english_source(attributes) {
                Ok(english) => {
                    if english {
                        self.begin_text(TextTarget::LanguageSource);
                    }
                },
                Err(error) => {
                    return Err(error);
                },
            }
        }
        Ok(())
    }

    fn add_text(&mut self, content: &[u8], literal: bool) -> (result: Result<(), DocumentError>)
        ensures
            match result {
                Ok(_) => with_text(old(self)@, content@, literal) == Ok::<_, DocumentFault>(
                    final(self)@,
                ),
                Err(error) => with_text(old(self)@, content@, literal) == Err::<DocumentView, _>(
                    error@,
                ) && final(self)@ == old(self)@,
            },
    {
        if self.target.is_none() {
            return Ok(());
        }
        let text = match decode(content) {
            Some(text) => text,
            None => {
                return Err(DocumentError::Encoding);
            },
        };
        if literal {
            self.text.append(text.as_str());
        } else {
            match unescape(text.as_str()) {
                Some(plain) => {
                    self.text.append(plain.as_str());
                },
                None => {
                    return Err(DocumentError::Reference);
                },
            }
        }
        Ok(())
    }

    fn add_comment(&mut self, content: &[u8]) -> (result: Result<(), DocumentError>)
        ensures
            match result {
                Ok(_) => with_comment(old(self)@, content@) == Ok::<_, DocumentFault>(
                    final(self)@,
                ),
                Err(error) => with_comment(old(self)@, content@) == Err::<DocumentView, _>(error@)
                    && final(self)@ == old(self)@,
            },
    {
        if !self.created.as_str().is_empty() {
            return Ok(());
        }
        let text = match decode(content) {
            Some(text) => text,
            None => {
                return Err(DocumentError::Encoding);
            },
        };
        let shown = trimmed(text.as_str());
        if starts_with(shown.as_str(), "JMdict created:") {
            let chars = chars_of(shown.as_str());
            let prefix = chars_of("JMdict created:");
            let date = text_of(&chars, prefix.len(), chars.len());
            assert(date@ =~= shown@.skip("JMdict created:"@.len() as int));
            self.created = trimmed(date.as_str());
        }
        Ok(())
    }

    fn finish_text(&mut self, target: TextTarget, text: &str)
        ensures
            final(self)@ == with_field(old(self)@, target, text@),
    {
        let shown = trimmed(text);
        if shown.as_str().is_empty() {
            return;
        }
        match target {
            TextTarget::Sequence => {
                if let Some(entry) = &mut self.entry {
                    entry.sequence = shown;
                }
            },
            TextTarget::Reading => {
                if let Some(reading) = &mut self.reading {
                    reading.text = shown;
                }
            },
            TextTarget::Priority => {
                if let Some(reading) = &mut self.reading {
                    proof {
                        texts_push(reading.priorities@, shown);
                    }
                    reading.priorities.push(shown);
                }
            },
            TextTarget::Restriction => {
                if let Some(sense) = &mut self.sense {
                    proof {
                        texts_push(sense.restrictions@, shown);
                        set_push(texts(sense.restrictions@), shown@);
                    }
                    sense.restrictions.push(shown);
                }
            },
            TextTarget::Gloss => {
                if valid_surface(shown.as_str()) {
                    if let Some(sense) = &mut self.sense {
                        proof {
                            texts_push(sense.glosses@, shown);
                        }
                        sense.glosses.push(shown);
                    }
                }
            },
            TextTarget::LanguageSource => {
                if valid_surface(shown.as_str()) {
                    if let Some(sense) = &mut self.sense {
                        proof {
                            texts_push(sense.sources@, shown);
                        }
                        sense.sources.push(shown);
                    } else if let Some(entry) = &mut self.entry {
                        proof {
                            texts_push(entry.entry_sources@, shown);
                        }
                        entry.entry_sources.push(shown);
                    }
                }
            },
        }
    }

    fn end_text(&mut self, name: &[u8])
        ensures
            final(self)@ == with_ended_text(old(self)@, name@),
    {
        if let Some(target) = self.target {
            if named(name, target.element()) {
                let mut text = String::new();
                std::mem::swap(&mut text, &mut self.text);
                self.target = None;
                assert(self.text@ =~= Seq::empty());
                self.finish_text(target, text.as_str());
            }
        }
    }

    fn end_element(&mut self, name: &[u8])
        ensures
            final(self)@ == with_ended_element(old(self)@, name@),
    {
        if named(name, "r_ele") {
            let ended = self.reading.take();
            if let Some(reading) = ended {
                if let Some(entry) = &mut self.entry {
                    proof {
                        views_push(entry.readings@, reading);
                    }
                    entry.readings.push(reading);
                }
            }
        } else if named(name, "sense") {
            let ended = self.sense.take();
            if let Some(sense) = ended {
                if let Some(entry) = &mut self.entry {
                    proof {
                        views_push(entry.senses@, sense);
                    }
                    entry.senses.push(sense);
                }
            }
        } else if named(name, "entry") {
            let ended = self.entry.take();
            if let Some(entry) = ended {
                proof {
                    views_push(self.entries@, entry);
                }
                self.entries.push(entry);
            }
        }
    }

    /// Takes one more event. The document stays as it was where the event has a fault.
    pub fn apply(&mut self, event: &XmlEvent) -> (result: Result<(), DocumentError>)
        ensures
            match result {
                Ok(_) => after_event(old(self)@, event@) == Ok::<_, DocumentFault>(final(self)@),
                Err(error) => after_event(old(self)@, event@) == Err::<DocumentView, _>(error@)
                    && final(self)@ == old(self)@,
            },
    {
        match event {
            XmlEvent::Start { name, attributes } => self.open_element(name, attributes),
            XmlEvent::Empty { name, attributes } => {
                if named(name, "gloss") {
                    match english_gloss(attributes) {
                        Ok(_) => Ok(()),
                        Err(error) => Err(error),
                    }
                } else {
                    Ok(())
                }
            },
            XmlEvent::Text(content) => self.add_text(content, false),
            XmlEvent::CData(content) => self.add_text(content, true),
            XmlEvent::Comment(content) => self.add_comment(content),
            XmlEvent::End { name } => {
                self.end_text(name);
                self.end_element(name);
                Ok(())
            },
            XmlEvent::Eof => Ok(()),
            XmlEvent::Other => Ok(()),
        }
    }
}

/// Reads a document.
pub fn read_document(source: &[u8]) -> (result: Result<Document, DocumentError>)
    ensures
        match result {
            Ok(document) => after_events(document_events(source@)) == Ok::<_, DocumentFault>(
                document@,
            ),
            Err(error) => after_events(document_events(source@)) == Err::<DocumentView, _>(error@),
        },
{
    let mut reader = open_document(source);
    let ghost all = document_events(source@);
    let mut document = Document::new();
    let ghost mut count: int = 0;
    assert(all.skip(0) =~= all);
    assert(all.take(0) =~= Seq::empty());
    loop
        invariant
            all == document_events(source@),
            0 <= count < all.len(),
            unread(reader) == all.skip(count),
            after_events(all.take(count)) == Ok::<_, DocumentFault>(document@),
        decreases all.len() - count,
    {
        proof {
            assert(all.take(count + 1).drop_last() =~= all.take(count));
            assert(all.take(count + 1).last() == all[count]);
            assert(all.skip(count).drop_first() =~= all.skip(count + 1));
            if count + 1 == all.len() {
                assert(all.take(count + 1) =~= all);
            }
        }
        match read_event(&mut reader) {
            Ok(event) => {
                if let XmlEvent::Eof = event {
                    return Ok(document);
                }
                match document.apply(&event) {
                    Ok(_) => {},
                    Err(error) => {
                        proof {
                            first_fault_counts(all, count + 1);
                        }
                        return Err(error);
                    },
                }
            },
            Err(error) => {
                return Err(DocumentError::Markup(error));
            },
        }
        proof {
            count = count + 1;
        }
    }
}

} // verus!
