use vstd::prelude::*;

verus! {

/// Languages of the user interface.
#[derive(Clone, Copy, Debug, PartialEq, Eq, Structural)]
pub enum Language {
    En,
    Tr,
}

/// Localised texts of the user interface.
pub struct I18n {
    pub lang: Language,
}

impl I18n {
    /// Texts in the given language.
    pub fn new(lang: Language) -> (r: Self)
        ensures
            r.lang == lang,
    {
        Self { lang }
    }

    /// Switches to another language.
    pub fn set_language(&mut self, lang: Language)
        ensures
            final(self).lang == lang,
    {
        self.lang = lang;
    }

    /// Label of the tick counter.
    pub fn label_tick(&self) -> (s: &'static str)
        ensures
            self.lang == Language::En ==> s@ == "Tick"@,
            self.lang == Language::Tr ==> s@ == "Tur"@,
    {
        match self.lang {
            Language::En => "Tick",
            Language::Tr => "Tur",
        }
    }

    /// Label of the population count.
    pub fn label_agents(&self) -> (s: &'static str)
        ensures
            self.lang == Language::En ==> s@ == "Agents"@,
            self.lang == Language::Tr ==> s@ == "Ajan"@,
    {
        match self.lang {
            Language::En => "Agents",
            Language::Tr => "Ajan",
        }
    }

    /// Label of the day phase.
    pub fn label_phase(&self) -> (s: &'static str)
        ensures
            self.lang == Language::En ==> s@ == "Phase"@,
            self.lang == Language::Tr ==> s@ == "Faz"@,
    {
        match self.lang {
            Language::En => "Phase",
            Language::Tr => "Faz",
        }
    }

    /// Label of the average speed.
    pub fn label_avg_speed(&self) -> (s: &'static str)
        ensures
            self.lang == Language::En ==> s@ == "Avg Spd"@,
            self.lang == Language::Tr ==> s@ == "Ort Hız"@,
    {
        match self.lang {
            Language::En => "Avg Spd",
            Language::Tr => "Ort Hız",
        }
    }

    /// Label of the average vision range.
    pub fn label_avg_vision(&self) -> (s: &'static str)
        ensures
            self.lang == Language::En ==> s@ == "Avg Vis"@,
            self.lang == Language::Tr ==> s@ == "Ort Gör"@,
    {
        match self.lang {
            Language::En => "Avg Vis",
            Language::Tr => "Ort Gör",
        }
    }

    /// Label of the food total.
    pub fn label_food(&self) -> (s: &'static str)
        ensures
            self.lang == Language::En ==> s@ == "Food"@,
            self.lang == Language::Tr ==> s@ == "Yem"@,
    {
        match self.lang {
            Language::En => "Food",
            Language::Tr => "Yem",
        }
    }

    /// Banner shown while an Ice Age is active.
    pub fn ice_age_active_text(&self) -> (s: &'static str)
        ensures
            self.lang == Language::En ==> s@ == "[!! ICE AGE ACTIVE !!]"@,
            self.lang == Language::Tr ==> s@ == "[!! BUZ ÇAĞI AKTİF !!]"@,
    {
        match self.lang {
            Language::En => "[!! ICE AGE ACTIVE !!]",
            Language::Tr => "[!! BUZ ÇAĞI AKTİF !!]",
        }
    }

    /// Message shown once every agent has died.
    pub fn simulation_ended(&self) -> (s: &'static str)
        ensures
            self.lang == Language::En ==> s@ == "All agents died. Simulation ended."@,
            self.lang == Language::Tr ==> s@ == "Tüm ajanlar öldü. Simülasyon sona erdi."@,
    {
        match self.lang {
            Language::En => "All agents died. Simulation ended.",
            Language::Tr => "Tüm ajanlar öldü. Simülasyon sona erdi.",
        }
    }
}

} // verus!
