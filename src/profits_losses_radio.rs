use vstd::prelude::*;

verus! {

/// Whether the payoffs are profits (larger is better) or losses (smaller is
/// better).
#[derive(Clone, Copy, Debug, PartialEq, Eq, Structural)]
pub enum Choise {
    Profits,
    Losses,
}

/// The choice between profits and losses that the minimax criterion reads.
#[derive(Clone, Copy, Debug)]
pub struct ProfitsLossesRadio {
    selected_choice: Option<Choise>,
}

#[derive(Clone, Copy, Debug)]
pub enum ProfitsLossesRadioMessage {
    RadioSelected(Choise),
}

/// Payoffs are taken as profits until the user says otherwise.
pub const DEFAULT_PROFITS_LOSSES_CHOISE: Choise = Choise::Profits;

impl ProfitsLossesRadio {
    pub closed spec fn selected(&self) -> Option<Choise> {
        self.selected_choice
    }

    pub fn new() -> (r: Self)
        ensures
            r.selected() == Some(DEFAULT_PROFITS_LOSSES_CHOISE),
    {
        ProfitsLossesRadio { selected_choice: Some(DEFAULT_PROFITS_LOSSES_CHOISE) }
    }

    pub fn get_selected_choise(&self) -> (r: Choise)
        requires
            self.selected() is Some,
        ensures
            self.selected() == Some(r),
    {
        self.selected_choice.unwrap()
    }

    pub fn update_selected_choise(&mut self, new_choise: Choise)
        ensures
            final(self).selected() == Some(new_choise),
    {
        self.selected_choice = Some(new_choise);
    }
}

} // verus!
