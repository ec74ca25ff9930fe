use vstd::prelude::*;
use crate::card::{Card, CardModel, TEXT_LIMIT, TITLE_LIMIT, opt_view};
use crate::fields::{
    FieldError, background_check, check_background, check_text, check_title, check_turns,
    has_image_extension, is_url, text_check, title_check, turns_check,
};

verus! {

/// The field a card under construction asks for next.
#[derive(Clone, Copy, Debug, PartialEq, Eq, Structural)]
pub enum Stage {
    Title,
    Text,
    Background,
    Turns,
    Done,
}

/// Whether a card holds only what the field rules accept.
pub open spec fn valid_card(c: CardModel) -> bool {
    &&& match c.title {
        Some(t) => 0 < t.len() <= TITLE_LIMIT,
        None => true,
    }
    &&& 0 < c.text.len() <= TEXT_LIMIT
    &&& match c.background {
        Some(b) => b.len() > 0 && is_url(b) && has_image_extension(b),
        None => true,
    }
}

/// A card filled in field by field: title, text, background, then turns.
/// A rejected input leaves it as it was, so the same field is asked for again.
pub struct CardBuilder {
    stage: Stage,
    title: Option<String>,
    text: String,
    background: Option<String>,
    turns: Option<u32>,
}

impl CardBuilder {
    pub closed spec fn stage_of(&self) -> Stage {
        self.stage
    }

    /// The fields filled in so far; those not reached yet are absent or empty.
    pub closed spec fn fields(&self) -> CardModel {
        CardModel {
            title: opt_view(self.title),
            text: self.text@,
            background: opt_view(self.background),
            turns: self.turns,
        }
    }

    /// The fields already filled in hold only accepted values.
    pub open spec fn wf(&self) -> bool {
        let f = self.fields();
        &&& match f.title {
            Some(t) => 0 < t.len() <= TITLE_LIMIT,
            None => true,
        }
        &&& (self.stage_of() != Stage::Title && self.stage_of() != Stage::Text) ==> 0
            < f.text.len() <= TEXT_LIMIT
        &&& match f.background {
            Some(b) => b.len() > 0 && is_url(b) && has_image_extension(b),
            None => true,
        }
    }

    /// A builder that asks for the title first.
    pub fn new() -> (r: CardBuilder)
        ensures
            r.wf(),
            r.stage_of() == Stage::Title,
            r.fields() == (CardModel {
                title: None,
                text: Seq::empty(),
                background: None,
                turns: None,
            }),
    {
        CardBuilder {
            stage: Stage::Title,
            title: None,
            text: String::new(),
            background: None,
            turns: None,
        }
    }

    /// The field asked for next.
    pub fn stage(&self) -> (r: Stage)
        ensures
            r == self.stage_of(),
    {
        self.stage
    }

    /// Gives the field asked for one trimmed line of input. On success the
    /// field takes the value and the next field is asked for; on failure
    /// nothing changes.
    pub fn feed(&mut self, input: &str) -> (r: Result<(), FieldError>)
        requires
            old(self).wf(),
            old(self).stage_of() != Stage::Done,
        ensures
            final(self).wf(),
            r is Err ==> *final(self) == *old(self),
            old(self).stage_of() == Stage::Title ==> match title_check(input@) {
                Ok(v) => r is Ok && final(self).stage_of() == Stage::Text && final(self).fields()
                    == (CardModel { title: v, ..old(self).fields() }),
                Err(e) => r == Err::<(), FieldError>(e),
            },
            old(self).stage_of() == Stage::Text ==> match text_check(input@) {
                Ok(v) => r is Ok && final(self).stage_of() == Stage::Background
                    && final(self).fields() == (CardModel { text: v, ..old(self).fields() }),
                Err(e) => r == Err::<(), FieldError>(e),
            },
            old(self).stage_of() == Stage::Background ==> match background_check(
                input@,
                is_url(input@),
            ) {
                Ok(v) => r is Ok && final(self).stage_of() == Stage::Turns && final(self).fields()
                    == (CardModel { background: v, ..old(self).fields() }),
                Err(e) => r == Err::<(), FieldError>(e),
            },
            old(self).stage_of() == Stage::Turns ==> match turns_check(input@) {
                Ok(v) => r is Ok && final(self).stage_of() == Stage::Done && final(self).fields()
                    == (CardModel { turns: v, ..old(self).fields() }),
                Err(e) => r == Err::<(), FieldError>(e),
            },
    {
        match self.stage {
            Stage::Title => {
                let v = check_title(input)?;
                self.title = v;
                self.stage = Stage::Text;
            },
            Stage::Text => {
                let v = check_text(input)?;
                self.text = v;
                self.stage = Stage::Background;
            },
            Stage::Background => {
                let v = check_background(input)?;
                self.background = v;
                self.stage = Stage::Turns;
            },
            Stage::Turns => {
                let v = check_turns(input)?;
                self.turns = v;
                self.stage = Stage::Done;
            },
            Stage::Done => {},
        }
        Ok(())
    }

    /// The finished card.
    pub fn finish(self) -> (r: Card)
        requires
            self.wf(),
            self.stage_of() == Stage::Done,
        ensures
            r@ == self.fields(),
            valid_card(r@),
    {
        Card { title: self.title, text: self.text, background: self.background, turns: self.turns }
    }
}

} // verus!
