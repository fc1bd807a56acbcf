use vstd::prelude::*;
use crate::data::table::{place, Table};
use crate::lang::text::{clone_words, contains_str, lowercased, strs, to_lowercase};
use crate::ontology::concepts::{Concept, ConceptModel, Relation, RelationModel};

verus! {

/// The ontology: its concepts and relations in the order in which they
/// were given, and tables that lead from an id, an English label or an
/// Arabic name to the concept, and from a concept to its outgoing and
/// incoming relations. Where two concepts share an id, a label or a
/// synonym, the later one is the one that a lookup finds.
#[derive(Debug)]
pub struct OntologyGraph {
    pub concepts: Vec<Concept>,
    pub relations: Vec<Relation>,
    /// Concept id to the place of the concept.
    pub ids: Table<usize>,
    /// English label, in lower case, to the place of the concept.
    pub english: Table<usize>,
    /// Arabic label or synonym to the place of the concept.
    pub arabic: Table<usize>,
    /// Forward index: subject to outgoing relations.
    pub sources: Table<Vec<Relation>>,
    /// Reverse index: object to incoming relations.
    pub targets: Table<Vec<Relation>>,
    pub no_relations: Vec<Relation>,
}

/// How a lookup names a concept.
pub enum ConceptKey {
    Id,
    English,
    Arabic,
}

/// Whether the concept answers to the key: its id is the key; or its English
/// label, not empty, is the key in lower case; or the key, not empty, is
/// its Arabic label or one of its synonyms.
pub open spec fn answers_to(c: ConceptModel, kind: ConceptKey, key: Seq<char>) -> bool {
    match kind {
        ConceptKey::Id => c.id == key,
        ConceptKey::English => c.label_en.len() > 0 && lowercased(c.label_en) == key,
        ConceptKey::Arabic => key.len() > 0 && (c.label_ar == key || c.synonyms.contains(key)),
    }
}

/// The index of the last concept that answers to the key.
pub open spec fn last_answering(cs: Seq<ConceptModel>, kind: ConceptKey, key: Seq<char>) -> Option<
    int,
>
    decreases cs.len(),
{
    if cs.len() == 0 {
        None
    } else if answers_to(cs.last(), kind, key) {
        Some(cs.len() - 1)
    } else {
        last_answering(cs.drop_last(), kind, key)
    }
}

/// The concept with the given id.
pub open spec fn concept_by_id(cs: Seq<ConceptModel>, id: Seq<char>) -> Option<ConceptModel> {
    match last_answering(cs, ConceptKey::Id, id) {
        Some(i) => Some(cs[i]),
        None => None,
    }
}

/// The concept that a label leads to: the label gives the id of the last
/// concept that answers to it, and the id gives the concept.
pub open spec fn concept_by_label(cs: Seq<ConceptModel>, kind: ConceptKey, key: Seq<char>) -> Option<
    ConceptModel,
> {
    match last_answering(cs, kind, key) {
        Some(i) => concept_by_id(cs, cs[i].id),
        None => None,
    }
}

/// The relations whose subject (or, if `incoming`, whose object) is the concept.
pub open spec fn relations_of(rs: Seq<RelationModel>, id: Seq<char>, incoming: bool) -> Seq<
    RelationModel,
>
    decreases rs.len(),
{
    if rs.len() == 0 {
        Seq::empty()
    } else {
        let rest = relations_of(rs.drop_last(), id, incoming);
        let end = if incoming {
            rs.last().object
        } else {
            rs.last().subject
        };
        if end == id {
            rest.push(rs.last())
        } else {
            rest
        }
    }
}

/// The names of a concept: its synonyms, then its Arabic label unless it is
/// empty or among them.
pub open spec fn names_of(c: ConceptModel) -> Seq<Seq<char>> {
    if c.label_ar.len() > 0 && !c.synonyms.contains(c.label_ar) {
        c.synonyms.push(c.label_ar)
    } else {
        c.synonyms
    }
}

/// The ids of the concepts.
pub open spec fn concept_ids(cs: Seq<ConceptModel>) -> Set<Seq<char>> {
    cs.map_values(|c: ConceptModel| c.id).to_set()
}

/// Whether the table leads from each key to the last concept that answers
/// to it.
pub open spec fn maps_last(t: Table<usize>, cs: Seq<ConceptModel>, kind: ConceptKey) -> bool {
    forall|k: Seq<char>| place(#[trigger] t.find(k)) == last_answering(cs, kind, k)
}

/// Whether the table leads from each concept to its relations, in order.
pub open spec fn holds_relations(t: Table<Vec<Relation>>, rs: Seq<RelationModel>, incoming: bool) -> bool {
    forall|k: Seq<char>|
        (#[trigger] t.list(k)).map_values(|r: Relation| r@) == relations_of(rs, k, incoming)
}

/// The last concept that answers to a key is one of the concepts.
pub proof fn lemma_last_is_a_place(cs: Seq<ConceptModel>, kind: ConceptKey, key: Seq<char>)
    ensures
        last_answering(cs, kind, key) is Some ==> 0 <= last_answering(cs, kind, key).unwrap()
            < cs.len(),
    decreases cs.len(),
{
    if cs.len() > 0 && !answers_to(cs.last(), kind, key) {
        lemma_last_is_a_place(cs.drop_last(), kind, key);
    }
}

/// A copy of a relation.
pub fn copy_relation(r: &Relation) -> (c: Relation)
    ensures
        c@ == r@,
{
    Relation {
        subject: r.subject.clone(),
        verb: r.verb.clone(),
        object: r.object.clone(),
        frequency: r.frequency,
        verb_en: r.verb_en.clone(),
        verb_uthmani: r.verb_uthmani.clone(),
    }
}

/// The tables from ids, English labels and Arabic names to concepts.
fn index_concepts(concepts: &Vec<Concept>) -> (r: (Table<usize>, Table<usize>, Table<usize>))
    ensures
        r.0.wf(),
        r.1.wf(),
        r.2.wf(),
        maps_last(r.0, concepts@.map_values(|c: Concept| c@), ConceptKey::Id),
        maps_last(r.1, concepts@.map_values(|c: Concept| c@), ConceptKey::English),
        maps_last(r.2, concepts@.map_values(|c: Concept| c@), ConceptKey::Arabic),
{
    let ghost cs = concepts@.map_values(|c: Concept| c@);
    let mut ids: Table<usize> = Table::new();
    let mut english: Table<usize> = Table::new();
    let mut arabic: Table<usize> = Table::new();
    let mut i: usize = 0;
    assert(cs.take(0) =~= Seq::<ConceptModel>::empty());
    while i < concepts.len()
        invariant
            i <= concepts.len(),
            cs == concepts@.map_values(|c: Concept| c@),
            ids.wf(),
            english.wf(),
            arabic.wf(),
            maps_last(ids, cs.take(i as int), ConceptKey::Id),
            maps_last(english, cs.take(i as int), ConceptKey::English),
            maps_last(arabic, cs.take(i as int), ConceptKey::Arabic),
        decreases concepts.len() - i,
    {
        let c = &concepts[i];
        let ghost done = cs.take(i as int);
        let ghost next = cs.take(i + 1);
        proof {
            assert(next.drop_last() =~= done);
            assert(next.last() == c@);
        }
        let ghost ids0 = ids;
        ids.put(c.id.clone(), i);
        assert(maps_last(ids, next, ConceptKey::Id)) by {
            assert forall|k: Seq<char>| place(#[trigger] ids.find(k)) == last_answering(
                next,
                ConceptKey::Id,
                k,
            ) by {
                if k != c.id@ {
                    assert(ids.find(k) == ids0.find(k));
                }
            }
        }
        let ghost english0 = english;
        if c.label_en.as_str().unicode_len() > 0 {
            let key = to_lowercase(c.label_en.as_str());
            english.put(key, i);
        }
        assert(maps_last(english, next, ConceptKey::English)) by {
            assert forall|k: Seq<char>| place(#[trigger] english.find(k)) == last_answering(
                next,
                ConceptKey::English,
                k,
            ) by {
                if !answers_to(c@, ConceptKey::English, k) {
                    assert(english.find(k) == english0.find(k));
                }
            }
        }
        let ghost arabic0 = arabic;
        if c.label_ar.as_str().unicode_len() > 0 {
            arabic.put(c.label_ar.clone(), i);
        }
        let ghost syns = strs(c.synonyms@);
        let mut j: usize = 0;
        assert forall|k: Seq<char>| place(#[trigger] arabic.find(k)) == (if k.len() > 0 && (k
            == c.label_ar@ || syns.take(0).contains(k)) {
            Some(i as int)
        } else {
            last_answering(done, ConceptKey::Arabic, k)
        }) by {
            if !(k.len() > 0 && k == c.label_ar@) {
                assert(arabic.find(k) == arabic0.find(k));
            }
        }
        while j < c.synonyms.len()
            invariant
                j <= c.synonyms.len(),
                arabic.wf(),
                syns == strs(c.synonyms@),
                forall|k: Seq<char>|
                    place(#[trigger] arabic.find(k)) == (if k.len() > 0 && (k == c.label_ar@
                        || syns.take(j as int).contains(k)) {
                        Some(i as int)
                    } else {
                        last_answering(done, ConceptKey::Arabic, k)
                    }),
            decreases c.synonyms.len() - j,
        {
            let syn = &c.synonyms[j];
            let ghost before = arabic;
            proof {
                assert(syns.take(j + 1) =~= syns.take(j as int).push(syn@));
            }
            if syn.as_str().unicode_len() > 0 {
                arabic.put(syn.clone(), i);
            }
            assert forall|k: Seq<char>| place(#[trigger] arabic.find(k)) == (if k.len() > 0 && (k
                == c.label_ar@ || syns.take(j + 1).contains(k)) {
                Some(i as int)
            } else {
                last_answering(done, ConceptKey::Arabic, k)
            }) by {
                if k != syn@ || syn@.len() == 0 {
                    assert(arabic.find(k) == before.find(k));
                }
                let t0 = syns.take(j as int);
                let t1 = syns.take(j + 1);
                if t1.contains(k) && k != syn@ {
                    let u = choose|u: int| 0 <= u < t1.len() && #[trigger] t1[u] == k;
                    assert(t0[u] == k);
                }
                if t0.contains(k) {
                    let u = choose|u: int| 0 <= u < t0.len() && #[trigger] t0[u] == k;
                    assert(t1[u] == k);
                }
                if k == syn@ {
                    assert(t1[j as int] == k);
                }
            }
            j += 1;
        }
        assert(syns.take(c.synonyms.len() as int) =~= syns);
        assert(maps_last(arabic, next, ConceptKey::Arabic));
        i += 1;
    }
    assert(cs.take(concepts.len() as int) =~= cs);
    (ids, english, arabic)
}

/// The table from each concept to its relations at one end.
fn index_relations(relations: &Vec<Relation>, incoming: bool) -> (t: Table<Vec<Relation>>)
    ensures
        t.wf(),
        holds_relations(t, relations@.map_values(|r: Relation| r@), incoming),
{
    let ghost rs = relations@.map_values(|r: Relation| r@);
    let mut t: Table<Vec<Relation>> = Table::new();
    let mut i: usize = 0;
    assert(rs.take(0) =~= Seq::<RelationModel>::empty());
    assert forall|k: Seq<char>| (#[trigger] t.list(k)).map_values(|r: Relation| r@)
        == relations_of(rs.take(0), k, incoming) by {
        assert(t.list(k).map_values(|r: Relation| r@) =~= Seq::<RelationModel>::empty());
    }
    while i < relations.len()
        invariant
            i <= relations.len(),
            rs == relations@.map_values(|r: Relation| r@),
            t.wf(),
            holds_relations(t, rs.take(i as int), incoming),
        decreases relations.len() - i,
    {
        let rel = &relations[i];
        proof {
            assert(rs.take(i + 1).drop_last() =~= rs.take(i as int));
            assert(rs.take(i + 1).last() == rel@);
        }
        let key = if incoming {
            rel.object.clone()
        } else {
            rel.subject.clone()
        };
        let item = copy_relation(rel);
        let ghost before = t;
        let ghost k0 = key@;
        t.append(key, item);
        assert forall|k: Seq<char>| (#[trigger] t.list(k)).map_values(|r: Relation| r@)
            == relations_of(rs.take(i + 1), k, incoming) by {
            assert(before.list(k).map_values(|r: Relation| r@) == relations_of(
                rs.take(i as int),
                k,
                incoming,
            ));
            if k == k0 {
                assert(t.list(k).map_values(|r: Relation| r@) =~= before.list(k).map_values(
                    |r: Relation| r@,
                ).push(item@));
            }
        }
        i += 1;
    }
    assert(rs.take(relations.len() as int) =~= rs);
    t
}

impl OntologyGraph {
    pub open spec fn concept_models(&self) -> Seq<ConceptModel> {
        self.concepts@.map_values(|c: Concept| c@)
    }

    pub open spec fn relation_models(&self) -> Seq<RelationModel> {
        self.relations@.map_values(|r: Relation| r@)
    }

    /// Whether the tables lead to what the lists hold.
    pub open spec fn wf(&self) -> bool {
        &&& self.ids.wf()
        &&& self.english.wf()
        &&& self.arabic.wf()
        &&& self.sources.wf()
        &&& self.targets.wf()
        &&& self.no_relations@.len() == 0
        &&& maps_last(self.ids, self.concept_models(), ConceptKey::Id)
        &&& maps_last(self.english, self.concept_models(), ConceptKey::English)
        &&& maps_last(self.arabic, self.concept_models(), ConceptKey::Arabic)
        &&& holds_relations(self.sources, self.relation_models(), false)
        &&& holds_relations(self.targets, self.relation_models(), true)
    }

    /// Build the graph from parsed concepts and relations: the relations
    /// are indexed forward by subject and backward by object, the concepts
    /// by id, English label and Arabic names.
    pub fn build(concepts: Vec<Concept>, relations: Vec<Relation>) -> (g: Self)
        ensures
            g.wf(),
            g.concepts@ == concepts@,
            g.relations@ == relations@,
    {
        let (ids, english, arabic) = index_concepts(&concepts);
        let sources = index_relations(&relations, false);
        let targets = index_relations(&relations, true);
        OntologyGraph {
            concepts,
            relations,
            ids,
            english,
            arabic,
            sources,
            targets,
            no_relations: Vec::new(),
        }
    }

    /// The place of the last concept that answers to the key.
    pub fn find_last(&self, kind: ConceptKey, key: &String) -> (r: Option<usize>)
        requires
            self.wf(),
        ensures
            match r {
                Some(i) => i < self.concepts.len() && last_answering(
                    self.concept_models(),
                    kind,
                    key@,
                ) == Some(i as int),
                None => last_answering(self.concept_models(), kind, key@) is None,
            },
    {
        proof {
            lemma_last_is_a_place(self.concept_models(), kind, key@);
        }
        let found = match kind {
            ConceptKey::Id => {
                assert(place(self.ids.find(key@)) == last_answering(
                    self.concept_models(),
                    ConceptKey::Id,
                    key@,
                ));
                self.ids.get(key)
            },
            ConceptKey::English => {
                assert(place(self.english.find(key@)) == last_answering(
                    self.concept_models(),
                    ConceptKey::English,
                    key@,
                ));
                self.english.get(key)
            },
            ConceptKey::Arabic => {
                assert(place(self.arabic.find(key@)) == last_answering(
                    self.concept_models(),
                    ConceptKey::Arabic,
                    key@,
                ));
                self.arabic.get(key)
            },
        };
        match found {
            Some(i) => Some(*i),
            None => None,
        }
    }

    /// Get a concept by ID.
    pub fn get_concept(&self, id: &str) -> (r: Option<&Concept>)
        requires
            self.wf(),
        ensures
            match r {
                Some(c) => concept_by_id(self.concept_models(), id@) == Some(c@),
                None => concept_by_id(self.concept_models(), id@) is None,
            },
    {
        let key = id.to_owned();
        match self.find_last(ConceptKey::Id, &key) {
            Some(i) => Some(&self.concepts[i]),
            None => None,
        }
    }

    /// Find a concept by English label (case-insensitive).
    pub fn find_by_english(&self, label: &str) -> (r: Option<&Concept>)
        requires
            self.wf(),
        ensures
            match r {
                Some(c) => concept_by_label(
                    self.concept_models(),
                    ConceptKey::English,
                    lowercased(label@),
                ) == Some(c@),
                None => concept_by_label(
                    self.concept_models(),
                    ConceptKey::English,
                    lowercased(label@),
                ) is None,
            },
    {
        let key = to_lowercase(label);
        match self.find_last(ConceptKey::English, &key) {
            Some(i) => self.get_concept(self.concepts[i].id.as_str()),
            None => None,
        }
    }

    /// Find a concept by Arabic label or synonym.
    pub fn find_by_arabic(&self, text: &str) -> (r: Option<&Concept>)
        requires
            self.wf(),
        ensures
            match r {
                Some(c) => concept_by_label(self.concept_models(), ConceptKey::Arabic, text@)
                    == Some(c@),
                None => concept_by_label(self.concept_models(), ConceptKey::Arabic, text@) is None,
            },
    {
        let key = text.to_owned();
        match self.find_last(ConceptKey::Arabic, &key) {
            Some(i) => self.get_concept(self.concepts[i].id.as_str()),
            None => None,
        }
    }

    /// The relations at one end of which the concept stands.
    pub fn relations_at(&self, concept_id: &str, incoming: bool) -> (r: &Vec<Relation>)
        requires
            self.wf(),
        ensures
            r@.map_values(|x: Relation| x@) == relations_of(
                self.relation_models(),
                concept_id@,
                incoming,
            ),
    {
        let key = concept_id.to_owned();
        let table = if incoming {
            &self.targets
        } else {
            &self.sources
        };
        assert(table.list(key@).map_values(|x: Relation| x@) == relations_of(
            self.relation_models(),
            key@,
            incoming,
        ));
        match table.get(&key) {
            Some(v) => v,
            None => {
                assert(self.no_relations@ =~= table.list(key@));
                &self.no_relations
            },
        }
    }

    /// Get outgoing relations from a concept.
    pub fn outgoing_relations(&self, concept_id: &str) -> (r: &Vec<Relation>)
        requires
            self.wf(),
        ensures
            r@.map_values(|x: Relation| x@) == relations_of(
                self.relation_models(),
                concept_id@,
                false,
            ),
    {
        self.relations_at(concept_id, false)
    }

    /// Get incoming relations to a concept.
    pub fn incoming_relations(&self, concept_id: &str) -> (r: &Vec<Relation>)
        requires
            self.wf(),
        ensures
            r@.map_values(|x: Relation| x@) == relations_of(
                self.relation_models(),
                concept_id@,
                true,
            ),
    {
        self.relations_at(concept_id, true)
    }

    /// Get the names of a concept: its synonyms and its Arabic label.
    pub fn get_synonyms(&self, concept_id: &str) -> (r: Vec<String>)
        requires
            self.wf(),
        ensures
            strs(r@) == match concept_by_id(self.concept_models(), concept_id@) {
                Some(c) => names_of(c),
                None => Seq::empty(),
            },
    {
        match self.get_concept(concept_id) {
            Some(c) => {
                let mut syns = clone_words(&c.synonyms);
                if c.label_ar.as_str().unicode_len() > 0 && !contains_str(&syns, &c.label_ar) {
                    let ghost before = syns@;
                    syns.push(c.label_ar.clone());
                    assert(strs(syns@) =~= strs(before).push(c.label_ar@));
                }
                syns
            },
            None => {
                let v: Vec<String> = Vec::new();
                assert(strs(v@) =~= Seq::<Seq<char>>::empty());
                v
            },
        }
    }

    /// Number of concepts: of distinct concept ids.
    pub fn concept_count(&self) -> (n: usize)
        ensures
            n == concept_ids(self.concept_models()).len(),
    {
        let ghost ids = self.concept_models().map_values(|c: ConceptModel| c.id);
        let mut seen: Vec<String> = Vec::new();
        let mut i: usize = 0;
        assert(strs(seen@).to_set() =~= ids.take(0).to_set());
        while i < self.concepts.len()
            invariant
                i <= self.concepts.len(),
                ids == self.concept_models().map_values(|c: ConceptModel| c.id),
                strs(seen@).no_duplicates(),
                strs(seen@).to_set() == ids.take(i as int).to_set(),
            decreases self.concepts.len() - i,
        {
            let id = &self.concepts[i].id;
            proof {
                assert(ids.take(i + 1) =~= ids.take(i as int).push(id@));
                ids.take(i as int).lemma_push_to_set_commute(id@);
            }
            if !contains_str(&seen, id) {
                let ghost before = strs(seen@);
                seen.push(id.clone());
                proof {
                    assert(strs(seen@) =~= before.push(id@));
                    before.lemma_push_to_set_commute(id@);
                }
            } else {
                assert(strs(seen@).to_set().insert(id@) =~= strs(seen@).to_set());
            }
            i += 1;
        }
        proof {
            assert(ids.take(self.concepts.len() as int) =~= ids);
            strs(seen@).unique_seq_to_set();
        }
        seen.len()
    }

    /// Number of relations.
    pub fn relation_count(&self) -> (n: usize)
        ensures
            n == self.relation_models().len(),
    {
        self.relations.len()
    }
}

} // verus!
