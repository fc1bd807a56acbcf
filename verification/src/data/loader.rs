use vstd::prelude::*;
use crate::data::qac::{entries_of_lines, QacMorphology};
use crate::data::quran::{verses_of_lines, LineFault, QuranParseError, QuranText, VerseModel};
use crate::lang::text::lines_of;
use crate::nlp::stopwords::{stop_words_of, StopWords};

verus! {

/// The contents of the files that the models are read from.
pub struct ModelTexts {
    pub quran_simple: String,
    pub quran_uthmani: String,
    pub translation_en: String,
    pub qac: String,
    pub stopwords_ar_l1: String,
    pub stopwords_ar_l2: String,
    pub stopwords_en: String,
}

/// Which of the three verse texts was rejected, and why.
#[derive(Debug, Clone, Copy, PartialEq, Eq, Structural)]
pub enum LoadError {
    QuranSimple(QuranParseError),
    QuranUthmani(QuranParseError),
    TranslationEn(QuranParseError),
}

/// All loaded models in memory.
pub struct ModelStore {
    pub quran_simple: QuranText,
    pub quran_uthmani: QuranText,
    pub translation_en: QuranText,
    pub qac: QacMorphology,
    pub stopwords_ar_l1: StopWords,
    pub stopwords_ar_l2: StopWords,
    pub stopwords_en: StopWords,
}

/// What a verse text parses to.
pub open spec fn verses_of(text: Seq<char>) -> Result<Seq<VerseModel>, (LineFault, nat)> {
    verses_of_lines(lines_of(text))
}

/// The fault of a rejected verse text, with its line.
pub open spec fn fault_of(text: Seq<char>) -> (LineFault, nat) {
    match verses_of(text) {
        Err(e) => e,
        Ok(_) => (LineFault::Format, 0),
    }
}

impl ModelStore {
    /// Whether the store holds what the texts parse to.
    pub open spec fn holds(&self, texts: ModelTexts) -> bool {
        &&& verses_of(texts.quran_simple@) == Ok::<Seq<VerseModel>, (LineFault, nat)>(
            self.quran_simple@,
        )
        &&& verses_of(texts.quran_uthmani@) == Ok::<Seq<VerseModel>, (LineFault, nat)>(
            self.quran_uthmani@,
        )
        &&& verses_of(texts.translation_en@) == Ok::<Seq<VerseModel>, (LineFault, nat)>(
            self.translation_en@,
        )
        &&& self.quran_simple.wf()
        &&& self.quran_uthmani.wf()
        &&& self.translation_en.wf()
        &&& self.qac.wf()
        &&& self.qac@ == entries_of_lines(lines_of(texts.qac@))
        &&& self.stopwords_ar_l1.wf()
        &&& self.stopwords_ar_l1@ == stop_words_of(lines_of(texts.stopwords_ar_l1@))
        &&& self.stopwords_ar_l2.wf()
        &&& self.stopwords_ar_l2@ == stop_words_of(lines_of(texts.stopwords_ar_l2@))
        &&& self.stopwords_en.wf()
        &&& self.stopwords_en@ == stop_words_of(lines_of(texts.stopwords_en@))
    }

    /// Load all models from the contents of their files. The first verse
    /// text that is rejected, in the order simple, uthmani, translation,
    /// gives the error.
    pub fn load(texts: &ModelTexts) -> (r: Result<ModelStore, LoadError>)
        ensures
            match r {
                Ok(store) => store.holds(*texts),
                Err(LoadError::QuranSimple(e)) => verses_of(texts.quran_simple@) is Err && (
                    e.fault,
                    e.line as nat,
                ) == fault_of(texts.quran_simple@),
                Err(LoadError::QuranUthmani(e)) => verses_of(texts.quran_simple@) is Ok
                    && verses_of(texts.quran_uthmani@) is Err && (e.fault, e.line as nat)
                    == fault_of(texts.quran_uthmani@),
                Err(LoadError::TranslationEn(e)) => verses_of(texts.quran_simple@) is Ok
                    && verses_of(texts.quran_uthmani@) is Ok && verses_of(texts.translation_en@)
                    is Err && (e.fault, e.line as nat) == fault_of(texts.translation_en@),
            },
    {
        let quran_simple = match QuranText::from_str(texts.quran_simple.as_str()) {
            Ok(q) => q,
            Err(e) => {
                return Err(LoadError::QuranSimple(e));
            },
        };
        let quran_uthmani = match QuranText::from_str(texts.quran_uthmani.as_str()) {
            Ok(q) => q,
            Err(e) => {
                return Err(LoadError::QuranUthmani(e));
            },
        };
        let translation_en = match QuranText::from_str(texts.translation_en.as_str()) {
            Ok(q) => q,
            Err(e) => {
                return Err(LoadError::TranslationEn(e));
            },
        };
        let qac = QacMorphology::from_str(texts.qac.as_str()).unwrap();
        let stopwords_ar_l1 = StopWords::from_str(texts.stopwords_ar_l1.as_str());
        let stopwords_ar_l2 = StopWords::from_str(texts.stopwords_ar_l2.as_str());
        let stopwords_en = StopWords::from_str(texts.stopwords_en.as_str());
        Ok(
            ModelStore {
                quran_simple,
                quran_uthmani,
                translation_en,
                qac,
                stopwords_ar_l1,
                stopwords_ar_l2,
                stopwords_en,
            },
        )
    }
}

} // verus!
