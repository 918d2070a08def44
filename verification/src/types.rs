//! Core data types for parser results.
//!
//! Confidences, scores and trigger weights are fixed-point values scaled
//! by 1000: `1000` stands for a weight of one or a perfect score.

use vstd::prelude::*;

verus! {

/// Represents a matched intent with confidence score.
#[derive(Debug, Clone)]
pub struct IntentMatch {
    pub intent_name: String,
    pub provider_name: String,
    /// Score scaled by 1000.
    pub confidence: u64,
    pub trigger_pattern: String,
    pub original_input: String,
    pub entities: Vec<Entity>,
    pub source: String,
}

/// Represents an extracted entity from user input.  `start` and `end`
/// are half-open character offsets into the source text.
#[derive(Debug, Clone, PartialEq)]
pub struct Entity {
    pub entity_type: String,
    pub value: String,
    pub original: String,
    pub start: usize,
    pub end: usize,
}

/// Represents multiple possible matches requiring disambiguation.
#[derive(Debug, Clone)]
pub struct AmbiguousMatch {
    pub original_input: String,
    pub suggestions: Vec<IntentMatch>,
}

/// Represents a trigger pattern for intent matching.
#[derive(Debug, Clone)]
pub struct Trigger {
    pub pattern: String,
    pub intent_name: String,
    pub provider_name: String,
    /// Positive multiplier applied to the similarity score, scaled by
    /// 1000 (`1000` leaves the score unchanged).
    pub weight: u64,
    pub aliases: Vec<String>,
}

/// Result of one intent-matching call.
#[derive(Debug, Clone)]
pub enum ParseResult {
    Match(IntentMatch),
    Ambiguous(AmbiguousMatch),
    NoMatch,
}

pub struct EntityView {
    pub entity_type: Seq<char>,
    pub value: Seq<char>,
    pub original: Seq<char>,
    pub start: int,
    pub end: int,
}

pub struct IntentMatchView {
    pub intent_name: Seq<char>,
    pub provider_name: Seq<char>,
    pub confidence: int,
    pub trigger_pattern: Seq<char>,
    pub original_input: Seq<char>,
    pub entities: Seq<EntityView>,
    pub source: Seq<char>,
}

pub struct AmbiguousMatchView {
    pub original_input: Seq<char>,
    pub suggestions: Seq<IntentMatchView>,
}

pub struct TriggerView {
    pub pattern: Seq<char>,
    pub intent_name: Seq<char>,
    pub provider_name: Seq<char>,
    pub weight: int,
    pub aliases: Seq<Seq<char>>,
}

pub enum ParseResultView {
    Match(IntentMatchView),
    Ambiguous(AmbiguousMatchView),
    NoMatch,
}

impl View for Entity {
    type V = EntityView;

    open spec fn view(&self) -> EntityView {
        EntityView {
            entity_type: self.entity_type@,
            value: self.value@,
            original: self.original@,
            start: self.start as int,
            end: self.end as int,
        }
    }
}

impl View for IntentMatch {
    type V = IntentMatchView;

    open spec fn view(&self) -> IntentMatchView {
        IntentMatchView {
            intent_name: self.intent_name@,
            provider_name: self.provider_name@,
            confidence: self.confidence as int,
            trigger_pattern: self.trigger_pattern@,
            original_input: self.original_input@,
            entities: Seq::new(self.entities@.len(), |i: int| self.entities@[i]@),
            source: self.source@,
        }
    }
}

impl View for AmbiguousMatch {
    type V = AmbiguousMatchView;

    open spec fn view(&self) -> AmbiguousMatchView {
        AmbiguousMatchView {
            original_input: self.original_input@,
            suggestions: Seq::new(self.suggestions@.len(), |i: int| self.suggestions@[i]@),
        }
    }
}

impl View for Trigger {
    type V = TriggerView;

    open spec fn view(&self) -> TriggerView {
        TriggerView {
            pattern: self.pattern@,
            intent_name: self.intent_name@,
            provider_name: self.provider_name@,
            weight: self.weight as int,
            aliases: Seq::new(self.aliases@.len(), |i: int| self.aliases@[i]@),
        }
    }
}

impl View for ParseResult {
    type V = ParseResultView;

    open spec fn view(&self) -> ParseResultView {
        match self {
            ParseResult::Match(m) => ParseResultView::Match(m@),
            ParseResult::Ambiguous(a) => ParseResultView::Ambiguous(a@),
            ParseResult::NoMatch => ParseResultView::NoMatch,
        }
    }
}

impl IntentMatch {
    /// Builds a match with an empty entity list.
    pub fn new(
        intent_name: String,
        provider_name: String,
        confidence: u64,
        trigger_pattern: String,
        original_input: String,
        source: String,
    ) -> (r: Self)
        ensures
            r@ == (IntentMatchView {
                intent_name: intent_name@,
                provider_name: provider_name@,
                confidence: confidence as int,
                trigger_pattern: trigger_pattern@,
                original_input: original_input@,
                entities: Seq::<EntityView>::empty(),
                source: source@,
            }),
    {
        let r = Self {
            intent_name,
            provider_name,
            confidence,
            trigger_pattern,
            original_input,
            entities: Vec::new(),
            source,
        };
        proof {
            assert(r@.entities =~= Seq::<EntityView>::empty());
        }
        r
    }
}

impl Entity {
    pub fn new(entity_type: String, value: String, original: String, start: usize, end: usize) -> (r:
        Self)
        ensures
            r@ == (EntityView {
                entity_type: entity_type@,
                value: value@,
                original: original@,
                start: start as int,
                end: end as int,
            }),
    {
        Self { entity_type, value, original, start, end }
    }
}

} // verus!
