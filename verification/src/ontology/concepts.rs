use vstd::prelude::*;
use crate::lang::text::strs;

verus! {

/// A concept of the ontology.
#[derive(Debug, Clone)]
pub struct Concept {
    pub id: String,
    pub label_ar: String,
    pub label_en: String,
    pub frequency: u32,
    pub root: String,
    pub lemma: String,
    pub synonyms: Vec<String>,
}

/// A relation between two concepts.
#[derive(Debug, Clone)]
pub struct Relation {
    pub subject: String,
    pub verb: String,
    pub object: String,
    pub frequency: u32,
    pub verb_en: String,
    pub verb_uthmani: String,
}

/// What a concept holds, as plain values.
pub ghost struct ConceptModel {
    pub id: Seq<char>,
    pub label_ar: Seq<char>,
    pub label_en: Seq<char>,
    pub frequency: u32,
    pub root: Seq<char>,
    pub lemma: Seq<char>,
    pub synonyms: Seq<Seq<char>>,
}

/// What a relation holds, as plain values.
pub ghost struct RelationModel {
    pub subject: Seq<char>,
    pub verb: Seq<char>,
    pub object: Seq<char>,
    pub frequency: u32,
    pub verb_en: Seq<char>,
    pub verb_uthmani: Seq<char>,
}

impl View for Concept {
    type V = ConceptModel;

    open spec fn view(&self) -> ConceptModel {
        ConceptModel {
            id: self.id@,
            label_ar: self.label_ar@,
            label_en: self.label_en@,
            frequency: self.frequency,
            root: self.root@,
            lemma: self.lemma@,
            synonyms: strs(self.synonyms@),
        }
    }
}

impl View for Relation {
    type V = RelationModel;

    open spec fn view(&self) -> RelationModel {
        RelationModel {
            subject: self.subject@,
            verb: self.verb@,
            object: self.object@,
            frequency: self.frequency,
            verb_en: self.verb_en@,
            verb_uthmani: self.verb_uthmani@,
        }
    }
}

} // verus!
