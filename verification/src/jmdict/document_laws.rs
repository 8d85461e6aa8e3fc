//! What is read of a JMdict document, said of its elements and attributes.

use crate::jmdict::document::{
    after_event, attribute_from, is_named, DocumentFault, DocumentView, RawEntryView, ReadingView,
    SenseView, TextTarget,
};
use crate::jmdict::xml::{attribute_value, decoded, EventView};
use crate::ngram::laws::controls_are_literal;
use crate::text::{byte_count, trim};
use vstd::prelude::*;

verus! {

/// The first attribute of the name has this value.
pub open spec fn has_value(
    attributes: Seq<Option<(Seq<u8>, Seq<u8>)>>,
    name: Seq<char>,
    value: Seq<char>,
) -> bool {
    exists|k: int|
        0 <= k < attributes.len() && (#[trigger] attributes[k]) is Some && (attributes[k]->0).0
            == vstd::utf8::encode_utf8(name) && attribute_value((attributes[k]->0).1) == Some(
            value,
        ) && lacks(attributes.take(k), name)
}

/// No attribute has the name, and all can be read.
pub open spec fn lacks(attributes: Seq<Option<(Seq<u8>, Seq<u8>)>>, name: Seq<char>) -> bool {
    forall|j: int|
        0 <= j < attributes.len() ==> (#[trigger] attributes[j]) is Some && (attributes[j]->0).0
            != vstd::utf8::encode_utf8(name)
}

/// The attribute can be read: it is missing, or has a value.
pub open spec fn is_readable(
    attributes: Seq<Option<(Seq<u8>, Seq<u8>)>>,
    name: Seq<char>,
) -> bool {
    lacks(attributes, name) || exists|value: Seq<char>| #[trigger]
        has_value(attributes, name, value)
}

proof fn attribute_is_missing(
    attributes: Seq<Option<(Seq<u8>, Seq<u8>)>>,
    name: Seq<char>,
    start: int,
)
    requires
        0 <= start <= attributes.len(),
        lacks(attributes, name),
    ensures
        attribute_from(attributes, start, name) == Ok::<Option<Seq<char>>, DocumentFault>(None),
    decreases attributes.len() - start,
{
    if start < attributes.len() {
        attribute_is_missing(attributes, name, start + 1);
    }
}

proof fn attribute_is_there(
    attributes: Seq<Option<(Seq<u8>, Seq<u8>)>>,
    name: Seq<char>,
    value: Seq<char>,
    start: int,
    k: int,
)
    requires
        0 <= start <= k < attributes.len(),
        attributes[k] is Some,
        (attributes[k]->0).0 == vstd::utf8::encode_utf8(name),
        attribute_value((attributes[k]->0).1) == Some(value),
        lacks(attributes.take(k), name),
    ensures
        attribute_from(attributes, start, name) == Ok::<Option<Seq<char>>, DocumentFault>(
            Some(value),
        ),
    decreases k - start,
{
    if start < k {
        assert(attributes.take(k)[start] == attributes[start]);
        attribute_is_there(attributes, name, value, start + 1, k);
    }
}

proof fn attribute_is_read(attributes: Seq<Option<(Seq<u8>, Seq<u8>)>>, name: Seq<char>)
    ensures
        lacks(attributes, name) ==> attribute_from(attributes, 0, name) == Ok::<
            Option<Seq<char>>,
            DocumentFault,
        >(None),
        forall|value: Seq<char>| #[trigger]
            has_value(attributes, name, value) ==> attribute_from(attributes, 0, name) == Ok::<
                Option<Seq<char>>,
                DocumentFault,
            >(Some(value)),
{
    if lacks(attributes, name) {
        attribute_is_missing(attributes, name, 0);
    }
    assert forall|value: Seq<char>| #[trigger] has_value(
        attributes,
        name,
        value,
    ) implies attribute_from(attributes, 0, name) == Ok::<Option<Seq<char>>, DocumentFault>(
        Some(value),
    ) by {
        let k = choose|k: int|
            0 <= k < attributes.len() && (#[trigger] attributes[k]) is Some && (attributes[k]->0).0
                == vstd::utf8::encode_utf8(name) && attribute_value((attributes[k]->0).1) == Some(
                value,
            ) && lacks(attributes.take(k), name);
        attribute_is_there(attributes, name, value, 0, k);
    }
}

proof fn names_differ(left: Seq<char>, right: Seq<char>)
    ensures
        is_named(vstd::utf8::encode_utf8(left), right) <==> left == right,
{
    vstd::utf8::encode_utf8_decode_utf8(left);
    vstd::utf8::encode_utf8_decode_utf8(right);
}

/// The elements that are read have names of their own.
proof fn names_are_distinct()
    ensures
        is_named(vstd::utf8::encode_utf8("entry"@), "entry"@) == (true),
        is_named(vstd::utf8::encode_utf8("entry"@), "r_ele"@) == (false),
        is_named(vstd::utf8::encode_utf8("entry"@), "sense"@) == (false),
        is_named(vstd::utf8::encode_utf8("entry"@), "ent_seq"@) == (false),
        is_named(vstd::utf8::encode_utf8("entry"@), "reb"@) == (false),
        is_named(vstd::utf8::encode_utf8("entry"@), "re_pri"@) == (false),
        is_named(vstd::utf8::encode_utf8("entry"@), "stagr"@) == (false),
        is_named(vstd::utf8::encode_utf8("entry"@), "gloss"@) == (false),
        is_named(vstd::utf8::encode_utf8("entry"@), "lsource"@) == (false),
        is_named(vstd::utf8::encode_utf8("r_ele"@), "entry"@) == (false),
        is_named(vstd::utf8::encode_utf8("r_ele"@), "r_ele"@) == (true),
        is_named(vstd::utf8::encode_utf8("r_ele"@), "sense"@) == (false),
        is_named(vstd::utf8::encode_utf8("r_ele"@), "ent_seq"@) == (false),
        is_named(vstd::utf8::encode_utf8("r_ele"@), "reb"@) == (false),
        is_named(vstd::utf8::encode_utf8("r_ele"@), "re_pri"@) == (false),
        is_named(vstd::utf8::encode_utf8("r_ele"@), "stagr"@) == (false),
        is_named(vstd::utf8::encode_utf8("r_ele"@), "gloss"@) == (false),
        is_named(vstd::utf8::encode_utf8("r_ele"@), "lsource"@) == (false),
        is_named(vstd::utf8::encode_utf8("sense"@), "entry"@) == (false),
        is_named(vstd::utf8::encode_utf8("sense"@), "r_ele"@) == (false),
        is_named(vstd::utf8::encode_utf8("sense"@), "sense"@) == (true),
        is_named(vstd::utf8::encode_utf8("sense"@), "ent_seq"@) == (false),
        is_named(vstd::utf8::encode_utf8("sense"@), "reb"@) == (false),
        is_named(vstd::utf8::encode_utf8("sense"@), "re_pri"@) == (false),
        is_named(vstd::utf8::encode_utf8("sense"@), "stagr"@) == (false),
        is_named(vstd::utf8::encode_utf8("sense"@), "gloss"@) == (false),
        is_named(vstd::utf8::encode_utf8("sense"@), "lsource"@) == (false),
        is_named(vstd::utf8::encode_utf8("ent_seq"@), "entry"@) == (false),
        is_named(vstd::utf8::encode_utf8("ent_seq"@), "r_ele"@) == (false),
        is_named(vstd::utf8::encode_utf8("ent_seq"@), "sense"@) == (false),
        is_named(vstd::utf8::encode_utf8("ent_seq"@), "ent_seq"@) == (true),
        is_named(vstd::utf8::encode_utf8("ent_seq"@), "reb"@) == (false),
        is_named(vstd::utf8::encode_utf8("ent_seq"@), "re_pri"@) == (false),
        is_named(vstd::utf8::encode_utf8("ent_seq"@), "stagr"@) == (false),
        is_named(vstd::utf8::encode_utf8("ent_seq"@), "gloss"@) == (false),
        is_named(vstd::utf8::encode_utf8("ent_seq"@), "lsource"@) == (false),
        is_named(vstd::utf8::encode_utf8("reb"@), "entry"@) == (false),
        is_named(vstd::utf8::encode_utf8("reb"@), "r_ele"@) == (false),
        is_named(vstd::utf8::encode_utf8("reb"@), "sense"@) == (false),
        is_named(vstd::utf8::encode_utf8("reb"@), "ent_seq"@) == (false),
        is_named(vstd::utf8::encode_utf8("reb"@), "reb"@) == (true),
        is_named(vstd::utf8::encode_utf8("reb"@), "re_pri"@) == (false),
        is_named(vstd::utf8::encode_utf8("reb"@), "stagr"@) == (false),
        is_named(vstd::utf8::encode_utf8("reb"@), "gloss"@) == (false),
        is_named(vstd::utf8::encode_utf8("reb"@), "lsource"@) == (false),
        is_named(vstd::utf8::encode_utf8("re_pri"@), "entry"@) == (false),
        is_named(vstd::utf8::encode_utf8("re_pri"@), "r_ele"@) == (false),
        is_named(vstd::utf8::encode_utf8("re_pri"@), "sense"@) == (false),
        is_named(vstd::utf8::encode_utf8("re_pri"@), "ent_seq"@) == (false),
        is_named(vstd::utf8::encode_utf8("re_pri"@), "reb"@) == (false),
        is_named(vstd::utf8::encode_utf8("re_pri"@), "re_pri"@) == (true),
        is_named(vstd::utf8::encode_utf8("re_pri"@), "stagr"@) == (false),
        is_named(vstd::utf8::encode_utf8("re_pri"@), "gloss"@) == (false),
        is_named(vstd::utf8::encode_utf8("re_pri"@), "lsource"@) == (false),
        is_named(vstd::utf8::encode_utf8("stagr"@), "entry"@) == (false),
        is_named(vstd::utf8::encode_utf8("stagr"@), "r_ele"@) == (false),
        is_named(vstd::utf8::encode_utf8("stagr"@), "sense"@) == (false),
        is_named(vstd::utf8::encode_utf8("stagr"@), "ent_seq"@) == (false),
        is_named(vstd::utf8::encode_utf8("stagr"@), "reb"@) == (false),
        is_named(vstd::utf8::encode_utf8("stagr"@), "re_pri"@) == (false),
        is_named(vstd::utf8::encode_utf8("stagr"@), "stagr"@) == (true),
        is_named(vstd::utf8::encode_utf8("stagr"@), "gloss"@) == (false),
        is_named(vstd::utf8::encode_utf8("stagr"@), "lsource"@) == (false),
        is_named(vstd::utf8::encode_utf8("gloss"@), "entry"@) == (false),
        is_named(vstd::utf8::encode_utf8("gloss"@), "r_ele"@) == (false),
        is_named(vstd::utf8::encode_utf8("gloss"@), "sense"@) == (false),
        is_named(vstd::utf8::encode_utf8("gloss"@), "ent_seq"@) == (false),
        is_named(vstd::utf8::encode_utf8("gloss"@), "reb"@) == (false),
        is_named(vstd::utf8::encode_utf8("gloss"@), "re_pri"@) == (false),
        is_named(vstd::utf8::encode_utf8("gloss"@), "stagr"@) == (false),
        is_named(vstd::utf8::encode_utf8("gloss"@), "gloss"@) == (true),
        is_named(vstd::utf8::encode_utf8("gloss"@), "lsource"@) == (false),
        is_named(vstd::utf8::encode_utf8("lsource"@), "entry"@) == (false),
        is_named(vstd::utf8::encode_utf8("lsource"@), "r_ele"@) == (false),
        is_named(vstd::utf8::encode_utf8("lsource"@), "sense"@) == (false),
        is_named(vstd::utf8::encode_utf8("lsource"@), "ent_seq"@) == (false),
        is_named(vstd::utf8::encode_utf8("lsource"@), "reb"@) == (false),
        is_named(vstd::utf8::encode_utf8("lsource"@), "re_pri"@) == (false),
        is_named(vstd::utf8::encode_utf8("lsource"@), "stagr"@) == (false),
        is_named(vstd::utf8::encode_utf8("lsource"@), "gloss"@) == (false),
        is_named(vstd::utf8::encode_utf8("lsource"@), "lsource"@) == (true),
{
    reveal_strlit("entry");
    assert("entry"@.len() == 5 && "entry"@[0] == 'e' && "entry"@[1] == 'n' && "entry"@[2] == 't'
        && "entry"@[3] == 'r' && "entry"@[4] == 'y');
    reveal_strlit("r_ele");
    assert("r_ele"@.len() == 5 && "r_ele"@[0] == 'r' && "r_ele"@[1] == '_' && "r_ele"@[2] == 'e'
        && "r_ele"@[3] == 'l' && "r_ele"@[4] == 'e');
    reveal_strlit("sense");
    assert("sense"@.len() == 5 && "sense"@[0] == 's' && "sense"@[1] == 'e' && "sense"@[2] == 'n'
        && "sense"@[3] == 's' && "sense"@[4] == 'e');
    reveal_strlit("ent_seq");
    assert("ent_seq"@.len() == 7 && "ent_seq"@[0] == 'e' && "ent_seq"@[1] == 'n'
        && "ent_seq"@[2] == 't' && "ent_seq"@[3] == '_' && "ent_seq"@[4] == 's'
        && "ent_seq"@[5] == 'e' && "ent_seq"@[6] == 'q');
    reveal_strlit("reb");
    assert("reb"@.len() == 3 && "reb"@[0] == 'r' && "reb"@[1] == 'e' && "reb"@[2] == 'b');
    reveal_strlit("re_pri");
    assert("re_pri"@.len() == 6 && "re_pri"@[0] == 'r' && "re_pri"@[1] == 'e'
        && "re_pri"@[2] == '_' && "re_pri"@[3] == 'p' && "re_pri"@[4] == 'r'
        && "re_pri"@[5] == 'i');
    reveal_strlit("stagr");
    assert("stagr"@.len() == 5 && "stagr"@[0] == 's' && "stagr"@[1] == 't' && "stagr"@[2] == 'a'
        && "stagr"@[3] == 'g' && "stagr"@[4] == 'r');
    reveal_strlit("gloss");
    assert("gloss"@.len() == 5 && "gloss"@[0] == 'g' && "gloss"@[1] == 'l' && "gloss"@[2] == 'o'
        && "gloss"@[3] == 's' && "gloss"@[4] == 's');
    reveal_strlit("lsource");
    assert("lsource"@.len() == 7 && "lsource"@[0] == 'l' && "lsource"@[1] == 's'
        && "lsource"@[2] == 'o' && "lsource"@[3] == 'u' && "lsource"@[4] == 'r'
        && "lsource"@[5] == 'c' && "lsource"@[6] == 'e');
    names_differ("entry"@, "entry"@);
    names_differ("entry"@, "r_ele"@);
    names_differ("entry"@, "sense"@);
    names_differ("entry"@, "ent_seq"@);
    names_differ("entry"@, "reb"@);
    names_differ("entry"@, "re_pri"@);
    names_differ("entry"@, "stagr"@);
    names_differ("entry"@, "gloss"@);
    names_differ("entry"@, "lsource"@);
    names_differ("r_ele"@, "entry"@);
    names_differ("r_ele"@, "r_ele"@);
    names_differ("r_ele"@, "sense"@);
    names_differ("r_ele"@, "ent_seq"@);
    names_differ("r_ele"@, "reb"@);
    names_differ("r_ele"@, "re_pri"@);
    names_differ("r_ele"@, "stagr"@);
    names_differ("r_ele"@, "gloss"@);
    names_differ("r_ele"@, "lsource"@);
    names_differ("sense"@, "entry"@);
    names_differ("sense"@, "r_ele"@);
    names_differ("sense"@, "sense"@);
    names_differ("sense"@, "ent_seq"@);
    names_differ("sense"@, "reb"@);
    names_differ("sense"@, "re_pri"@);
    names_differ("sense"@, "stagr"@);
    names_differ("sense"@, "gloss"@);
    names_differ("sense"@, "lsource"@);
    names_differ("ent_seq"@, "entry"@);
    names_differ("ent_seq"@, "r_ele"@);
    names_differ("ent_seq"@, "sense"@);
    names_differ("ent_seq"@, "ent_seq"@);
    names_differ("ent_seq"@, "reb"@);
    names_differ("ent_seq"@, "re_pri"@);
    names_differ("ent_seq"@, "stagr"@);
    names_differ("ent_seq"@, "gloss"@);
    names_differ("ent_seq"@, "lsource"@);
    names_differ("reb"@, "entry"@);
    names_differ("reb"@, "r_ele"@);
    names_differ("reb"@, "sense"@);
    names_differ("reb"@, "ent_seq"@);
    names_differ("reb"@, "reb"@);
    names_differ("reb"@, "re_pri"@);
    names_differ("reb"@, "stagr"@);
    names_differ("reb"@, "gloss"@);
    names_differ("reb"@, "lsource"@);
    names_differ("re_pri"@, "entry"@);
    names_differ("re_pri"@, "r_ele"@);
    names_differ("re_pri"@, "sense"@);
    names_differ("re_pri"@, "ent_seq"@);
    names_differ("re_pri"@, "reb"@);
    names_differ("re_pri"@, "re_pri"@);
    names_differ("re_pri"@, "stagr"@);
    names_differ("re_pri"@, "gloss"@);
    names_differ("re_pri"@, "lsource"@);
    names_differ("stagr"@, "entry"@);
    names_differ("stagr"@, "r_ele"@);
    names_differ("stagr"@, "sense"@);
    names_differ("stagr"@, "ent_seq"@);
    names_differ("stagr"@, "reb"@);
    names_differ("stagr"@, "re_pri"@);
    names_differ("stagr"@, "stagr"@);
    names_differ("stagr"@, "gloss"@);
    names_differ("stagr"@, "lsource"@);
    names_differ("gloss"@, "entry"@);
    names_differ("gloss"@, "r_ele"@);
    names_differ("gloss"@, "sense"@);
    names_differ("gloss"@, "ent_seq"@);
    names_differ("gloss"@, "reb"@);
    names_differ("gloss"@, "re_pri"@);
    names_differ("gloss"@, "stagr"@);
    names_differ("gloss"@, "gloss"@);
    names_differ("gloss"@, "lsource"@);
    names_differ("lsource"@, "entry"@);
    names_differ("lsource"@, "r_ele"@);
    names_differ("lsource"@, "sense"@);
    names_differ("lsource"@, "ent_seq"@);
    names_differ("lsource"@, "reb"@);
    names_differ("lsource"@, "re_pri"@);
    names_differ("lsource"@, "stagr"@);
    names_differ("lsource"@, "gloss"@);
    names_differ("lsource"@, "lsource"@);
}

/// The document after an element that holds nothing but text.
pub open spec fn after_element(
    document: DocumentView,
    name: Seq<char>,
    attributes: Seq<Option<(Seq<u8>, Seq<u8>)>>,
    content: Seq<u8>,
) -> Result<DocumentView, DocumentFault> {
    let bytes = vstd::utf8::encode_utf8(name);
    match after_event(document, EventView::Start { name: bytes, attributes }) {
        Ok(opened) => match after_event(opened, EventView::Text(content)) {
            Ok(read) => after_event(read, EventView::End { name: bytes }),
            Err(fault) => Err(fault),
        },
        Err(fault) => Err(fault),
    }
}

/// A source word that is given as one of another language than English adds nothing to the
/// document, nor does one that is given as a part of the word only.
pub proof fn foreign_sources_add_nothing(
    document: DocumentView,
    attributes: Seq<Option<(Seq<u8>, Seq<u8>)>>,
    content: Seq<u8>,
    value: Seq<char>,
)
    requires
        document.target is None,
        is_readable(attributes, "xml:lang"@),
        is_readable(attributes, "ls_type"@),
        has_value(attributes, "xml:lang"@, value) && value != "eng"@ || has_value(
            attributes,
            "ls_type"@,
            value,
        ) && value != "full"@,
    ensures
        after_element(document, "lsource"@, attributes, content) == Ok::<_, DocumentFault>(
            document,
        ),
{
    names_are_distinct();
    attribute_is_read(attributes, "xml:lang"@);
    attribute_is_read(attributes, "ls_type"@);
}

/// A gloss that is given as one of another language than English adds nothing to the document, nor
/// does one that is an explanation.
pub proof fn foreign_glosses_add_nothing(
    document: DocumentView,
    attributes: Seq<Option<(Seq<u8>, Seq<u8>)>>,
    content: Seq<u8>,
    value: Seq<char>,
)
    requires
        document.target is None,
        is_readable(attributes, "xml:lang"@),
        is_readable(attributes, "g_type"@),
        has_value(attributes, "xml:lang"@, value) && value != "eng"@ || has_value(
            attributes,
            "g_type"@,
            value,
        ) && value == "expl"@,
    ensures
        after_element(document, "gloss"@, attributes, content) == Ok::<_, DocumentFault>(
            document,
        ),
{
    names_are_distinct();
    attribute_is_read(attributes, "xml:lang"@);
    attribute_is_read(attributes, "g_type"@);
}

/// The text can stand in a dictionary: it has at most 256 bytes, and no control characters.
pub open spec fn is_short_and_plain(text: Seq<char>) -> bool {
    &&& text.len() > 0
    &&& byte_count(text) <= 256
    &&& forall|i: int|
        0 <= i < text.len() ==> !((#[trigger] text[i]) <= '\u{1F}' || '\u{7F}' <= text[i]
            <= '\u{9F}')
}

/// The text of a source word that is English, or says no language, and that is the full word, or
/// does not say so, is added to the sources of the sense, or, outside a sense, to those of the
/// entry, without the white space around it. Nothing else changes. It is left out where it is too
/// long or not plain.
pub proof fn english_sources_are_added(
    document: DocumentView,
    attributes: Seq<Option<(Seq<u8>, Seq<u8>)>>,
    content: Seq<u8>,
    text: Seq<char>,
)
    requires
        document.target is None,
        document.text.len() == 0,
        lacks(attributes, "xml:lang"@) || has_value(attributes, "xml:lang"@, "eng"@),
        lacks(attributes, "ls_type"@) || has_value(attributes, "ls_type"@, "full"@),
        attribute_value(content) == Some(text),
    ensures
        ({
            let shown = trim(text);
            after_element(document, "lsource"@, attributes, content) == Ok::<_, DocumentFault>(
                if !is_short_and_plain(shown) {
                    document
                } else if document.sense is Some {
                    DocumentView {
                        sense: Some(
                            SenseView {
                                sources: (document.sense->0).sources.push(shown),
                                ..document.sense->0
                            },
                        ),
                        ..document
                    }
                } else if document.entry is Some {
                    DocumentView {
                        entry: Some(
                            RawEntryView {
                                entry_sources: (document.entry->0).entry_sources.push(shown),
                                ..document.entry->0
                            },
                        ),
                        ..document
                    }
                } else {
                    document
                },
            )
        }),
{
    names_are_distinct();
    attribute_is_read(attributes, "xml:lang"@);
    attribute_is_read(attributes, "ls_type"@);
    controls_are_literal(trim(text));
    assert(document.text =~= Seq::<char>::empty());
    assert(Seq::<char>::empty() + text =~= text);
}

/// The text of a gloss that is English, or says no language, and that is no explanation is added
/// to the glosses of the sense, without the white space around it. Nothing else changes. It is left
/// out where it is too long or not plain.
pub proof fn english_glosses_are_added(
    document: DocumentView,
    attributes: Seq<Option<(Seq<u8>, Seq<u8>)>>,
    content: Seq<u8>,
    text: Seq<char>,
    kind: Seq<char>,
)
    requires
        document.target is None,
        document.text.len() == 0,
        lacks(attributes, "xml:lang"@) || has_value(attributes, "xml:lang"@, "eng"@),
        lacks(attributes, "g_type"@) || has_value(attributes, "g_type"@, kind) && kind != "expl"@,
        attribute_value(content) == Some(text),
    ensures
        ({
            let shown = trim(text);
            after_element(document, "gloss"@, attributes, content) == Ok::<_, DocumentFault>(
                if is_short_and_plain(shown) && document.sense is Some {
                    DocumentView {
                        sense: Some(
                            SenseView {
                                glosses: (document.sense->0).glosses.push(shown),
                                ..document.sense->0
                            },
                        ),
                        ..document
                    }
                } else {
                    document
                },
            )
        }),
{
    names_are_distinct();
    attribute_is_read(attributes, "xml:lang"@);
    attribute_is_read(attributes, "g_type"@);
    controls_are_literal(trim(text));
    assert(document.text =~= Seq::<char>::empty());
    assert(Seq::<char>::empty() + text =~= text);
}

/// The text of `reb` is the reading, that of `re_pri` one more of its priorities, that of `stagr`
/// one more reading to which the sense is restricted, and that of `ent_seq` the number of the entry,
/// each without the white space around it. Nothing else changes.
pub proof fn fields_are_read(
    document: DocumentView,
    attributes: Seq<Option<(Seq<u8>, Seq<u8>)>>,
    content: Seq<u8>,
    text: Seq<char>,
)
    requires
        document.target is None,
        document.text.len() == 0,
        attribute_value(content) == Some(text),
        trim(text).len() > 0,
    ensures
        document.reading is Some ==> after_element(document, "reb"@, attributes, content) == Ok::<
            _,
            DocumentFault,
        >(
            DocumentView {
                reading: Some(ReadingView { text: trim(text), ..document.reading->0 }),
                ..document
            },
        ),
        document.reading is Some ==> after_element(document, "re_pri"@, attributes, content)
            == Ok::<_, DocumentFault>(
            DocumentView {
                reading: Some(
                    ReadingView {
                        priorities: (document.reading->0).priorities.push(trim(text)),
                        ..document.reading->0
                    },
                ),
                ..document
            },
        ),
        document.sense is Some ==> after_element(document, "stagr"@, attributes, content) == Ok::<
            _,
            DocumentFault,
        >(
            DocumentView {
                sense: Some(
                    SenseView {
                        restrictions: (document.sense->0).restrictions.insert(trim(text)),
                        ..document.sense->0
                    },
                ),
                ..document
            },
        ),
        document.entry is Some ==> after_element(document, "ent_seq"@, attributes, content)
            == Ok::<_, DocumentFault>(
            DocumentView {
                entry: Some(RawEntryView { sequence: trim(text), ..document.entry->0 }),
                ..document
            },
        ),
{
    names_are_distinct();
    assert(document.text =~= Seq::<char>::empty());
    assert(Seq::<char>::empty() + text =~= text);
}

/// `entry`, `r_ele` and `sense` start with nothing known. At its end a reading or a sense is added
/// to its entry, and an entry to the document.
pub proof fn elements_are_nested(
    document: DocumentView,
    attributes: Seq<Option<(Seq<u8>, Seq<u8>)>>,
)
    requires
        document.target is None,
    ensures
        after_event(
            document,
            EventView::Start { name: vstd::utf8::encode_utf8("entry"@), attributes },
        ) == Ok::<_, DocumentFault>(
            DocumentView {
                entry: Some(
                    RawEntryView {
                        sequence: Seq::empty(),
                        readings: Seq::empty(),
                        entry_sources: Seq::empty(),
                        senses: Seq::empty(),
                    },
                ),
                ..document
            },
        ),
        after_event(
            document,
            EventView::Start { name: vstd::utf8::encode_utf8("r_ele"@), attributes },
        ) == Ok::<_, DocumentFault>(
            DocumentView {
                reading: Some(ReadingView { text: Seq::empty(), priorities: Seq::empty() }),
                ..document
            },
        ),
        after_event(
            document,
            EventView::Start { name: vstd::utf8::encode_utf8("sense"@), attributes },
        ) == Ok::<_, DocumentFault>(
            DocumentView {
                sense: Some(
                    SenseView {
                        restrictions: Set::empty(),
                        sources: Seq::empty(),
                        glosses: Seq::empty(),
                    },
                ),
                ..document
            },
        ),
        document.entry is Some && document.reading is Some ==> after_event(
            document,
            EventView::End { name: vstd::utf8::encode_utf8("r_ele"@) },
        ) == Ok::<_, DocumentFault>(
            DocumentView {
                entry: Some(
                    RawEntryView {
                        readings: (document.entry->0).readings.push(document.reading->0),
                        ..document.entry->0
                    },
                ),
                reading: None,
                ..document
            },
        ),
        document.entry is Some && document.sense is Some ==> after_event(
            document,
            EventView::End { name: vstd::utf8::encode_utf8("sense"@) },
        ) == Ok::<_, DocumentFault>(
            DocumentView {
                entry: Some(
                    RawEntryView {
                        senses: (document.entry->0).senses.push(document.sense->0),
                        ..document.entry->0
                    },
                ),
                sense: None,
                ..document
            },
        ),
        document.entry is Some ==> after_event(
            document,
            EventView::End { name: vstd::utf8::encode_utf8("entry"@) },
        ) == Ok::<_, DocumentFault>(
            DocumentView {
                entry: None,
                entries: document.entries.push(document.entry->0),
                ..document
            },
        ),
{
    names_are_distinct();
}

/// A comment that begins with `JMdict created:` dates a document that has no date yet, with the
/// text behind it. Nothing else changes, and no other comment does anything.
pub proof fn comments_date_documents(document: DocumentView, content: Seq<u8>, text: Seq<char>)
    requires
        decoded(content) == Some(text),
    ensures
        document.created.len() > 0 ==> after_event(document, EventView::Comment(content)) == Ok::<
            _,
            DocumentFault,
        >(document),
        forall|date: Seq<char>|
            #![trigger "JMdict created:"@ + date]
            document.created.len() == 0 && trim(text) == "JMdict created:"@ + date ==> after_event(
                document,
                EventView::Comment(content),
            ) == Ok::<_, DocumentFault>(DocumentView { created: trim(date), ..document }),
        document.created.len() == 0 && (forall|date: Seq<char>|
            #![trigger "JMdict created:"@ + date]
            trim(text) != "JMdict created:"@ + date) ==> after_event(
            document,
            EventView::Comment(content),
        ) == Ok::<_, DocumentFault>(document),
{
    let shown = trim(text);
    let start = "JMdict created:"@;
    assert forall|date: Seq<char>|
        #![trigger "JMdict created:"@ + date]
        document.created.len() == 0 && shown == "JMdict created:"@ + date implies after_event(
        document,
        EventView::Comment(content),
    ) == Ok::<_, DocumentFault>(DocumentView { created: trim(date), ..document }) by {
        assert(shown.subrange(0, start.len() as int) =~= start);
        assert(shown.skip(start.len() as int) =~= date);
    }
    if crate::text::begins_with(shown, start) {
        assert(shown =~= start + shown.skip(start.len() as int));
    }
}

proof fn read_attribute_is_literal(
    attributes: Seq<Option<(Seq<u8>, Seq<u8>)>>,
    name: Seq<char>,
    start: int,
)
    requires
        0 <= start <= attributes.len(),
        lacks(attributes.take(start), name),
    ensures
        attribute_from(attributes, start, name) == Ok::<Option<Seq<char>>, DocumentFault>(None)
            ==> lacks(attributes, name),
        forall|value: Seq<char>|
            attribute_from(attributes, start, name) == Ok::<Option<Seq<char>>, DocumentFault>(
                Some(value),
            ) ==> #[trigger] has_value(attributes, name, value),
    decreases attributes.len() - start,
{
    if start >= attributes.len() {
        assert(attributes.take(start) =~= attributes);
    } else if attributes[start] is Some {
        if (attributes[start]->0).0 == vstd::utf8::encode_utf8(name) {
            assert(is_named((attributes[start]->0).0, name));
        } else {
            let longer = attributes.take(start + 1);
            assert forall|j: int| 0 <= j < longer.len() implies (#[trigger] longer[j]) is Some && (
            longer[j]->0).0 != vstd::utf8::encode_utf8(name) by {
                if j < start {
                    assert(attributes.take(start)[j] == longer[j]);
                }
            }
            read_attribute_is_literal(attributes, name, start + 1);
        }
    }
}

/// The text of a source word is awaited only behind the tag of an `lsource` that is English or says
/// no language, and that is the full word or does not say so.
pub proof fn only_english_sources_are_awaited(
    document: DocumentView,
    event: EventView,
    next: DocumentView,
)
    requires
        after_event(document, event) == Ok::<_, DocumentFault>(next),
        next.target == Some(TextTarget::LanguageSource),
        document.target != Some(TextTarget::LanguageSource),
    ensures
        event is Start,
        event->Start_name == vstd::utf8::encode_utf8("lsource"@),
        lacks(event->Start_attributes, "xml:lang"@) || has_value(
            event->Start_attributes,
            "xml:lang"@,
            "eng"@,
        ),
        lacks(event->Start_attributes, "ls_type"@) || has_value(
            event->Start_attributes,
            "ls_type"@,
            "full"@,
        ),
{
    if event is Start {
        read_attribute_is_literal(event->Start_attributes, "xml:lang"@, 0);
        read_attribute_is_literal(event->Start_attributes, "ls_type"@, 0);
    }
}

/// The text of a gloss is awaited only behind the tag of a `gloss` that is English or says no
/// language, and that is no explanation.
pub proof fn only_english_glosses_are_awaited(
    document: DocumentView,
    event: EventView,
    next: DocumentView,
)
    requires
        after_event(document, event) == Ok::<_, DocumentFault>(next),
        next.target == Some(TextTarget::Gloss),
        document.target != Some(TextTarget::Gloss),
    ensures
        event is Start,
        event->Start_name == vstd::utf8::encode_utf8("gloss"@),
        lacks(event->Start_attributes, "xml:lang"@) || has_value(
            event->Start_attributes,
            "xml:lang"@,
            "eng"@,
        ),
        !has_value(event->Start_attributes, "g_type"@, "expl"@),
{
    if event is Start {
        read_attribute_is_literal(event->Start_attributes, "xml:lang"@, 0);
        attribute_is_read(event->Start_attributes, "g_type"@);
    }
}

/// A sense that is open gets a source word or a gloss only at the end of the element whose text is
/// awaited as such.
pub proof fn words_come_with_their_elements(
    document: DocumentView,
    event: EventView,
    next: DocumentView,
)
    requires
        after_event(document, event) == Ok::<_, DocumentFault>(next),
        document.sense is Some,
        next.sense is Some,
    ensures
        (next.sense->0).sources.len() > 0 && (next.sense->0).sources != (document.sense->0).sources
            ==> {
            &&& event == EventView::End { name: vstd::utf8::encode_utf8("lsource"@) }
            &&& document.target == Some(TextTarget::LanguageSource)
            &&& (next.sense->0).sources == (document.sense->0).sources.push(trim(document.text))
        },
        (next.sense->0).glosses.len() > 0 && (next.sense->0).glosses != (document.sense->0).glosses
            ==> {
            &&& event == EventView::End { name: vstd::utf8::encode_utf8("gloss"@) }
            &&& document.target == Some(TextTarget::Gloss)
            &&& (next.sense->0).glosses == (document.sense->0).glosses.push(trim(document.text))
        },
{
}

} // verus!
