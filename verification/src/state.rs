use vstd::prelude::*;

use crate::minigame::Minigame;

verus! {

/// The color scheme of the resume.
#[derive(Clone, Copy, PartialEq, Eq, Structural)]
pub enum Theme {
    Light,
    Dark,
}

/// The language of the resume.
#[derive(Clone, Copy, PartialEq, Eq, Structural)]
pub enum Language {
    English,
    German,
}

/// The colors of a theme, as RGBA. A background of `None` leaves the page white.
pub struct Colors {
    pub background: Option<u32>,
    pub text: u32,
    pub link: u32,
    pub disabled_link: u32,
}

/// The colors of each theme.
pub open spec fn theme_colors(theme: Theme) -> Colors {
    match theme {
        Theme::Light => Colors {
            background: None,
            text: 0x00_00_00_ff,
            link: 0x11_55_cc_ff,
            disabled_link: 0x77_77_77_ff,
        },
        Theme::Dark => Colors {
            background: Some(0x1a_20_31_ff),
            text: 0xff_ff_ff_ff,
            link: 0x4c_b5_ff_ff,
            disabled_link: 0x77_77_77_ff,
        },
    }
}

impl Theme {
    /// The colors this theme paints with.
    pub fn colors(self) -> (colors: Colors)
        ensures
            colors == theme_colors(self),
    {
        match self {
            Theme::Light => Colors {
                background: None,
                text: 0x00_00_00_ff,
                link: 0x11_55_cc_ff,
                disabled_link: 0x77_77_77_ff,
            },
            Theme::Dark => Colors {
                background: Some(0x1a_20_31_ff),
                text: 0xff_ff_ff_ff,
                link: 0x4c_b5_ff_ff,
                disabled_link: 0x77_77_77_ff,
            },
        }
    }
}

/// Everything a link asks of the resume: whether the settings are open, the theme, the
/// minigame in play if any, the secret that shows the phone number, and the language.
#[derive(Clone, Copy)]
pub struct State {
    pub open: bool,
    pub theme: Theme,
    pub minigame: Option<Minigame>,
    pub secret: Option<[u8; 8]>,
    /// Not read; kept so that links keep their layout.
    pub reference: bool,
    pub language: Language,
}

/// `state` with `theme` in place of its theme.
pub open spec fn with_theme(state: State, theme: Theme) -> State {
    State { theme: theme, ..state }
}

/// `state` with `language` in place of its language.
pub open spec fn with_language(state: State, language: Language) -> State {
    State { language: language, ..state }
}

/// `state` with `minigame` in place of its minigame.
pub open spec fn with_minigame(state: State, minigame: Option<Minigame>) -> State {
    State { minigame: minigame, ..state }
}

impl State {
    /// The state with the minigame `minigame` in place of this one's.
    pub fn with_minigame(&self, minigame: Option<Minigame>) -> (state: State)
        ensures
            state == with_minigame(*self, minigame),
    {
        State { minigame, ..*self }
    }

    /// The state with the settings shut where they are open and open where they are shut.
    pub fn settings_toggled(&self) -> (state: State)
        ensures
            state == (State { open: !self.open, ..*self }),
    {
        State { open: !self.open, ..*self }
    }

    /// Where the settings offer the theme `theme`: `None` when it is the one shown, else the
    /// state its link asks for.
    pub fn theme_switch(&self, theme: Theme) -> (target: Option<State>)
        ensures
            target is None <==> self.theme == theme,
            target matches Some(state) ==> state == with_theme(*self, theme),
    {
        if self.theme == theme {
            None
        } else {
            Some(State { theme, ..*self })
        }
    }

    /// Where the settings offer the language `language`: `None` when it is the one shown,
    /// else the state its link asks for.
    pub fn language_switch(&self, language: Language) -> (target: Option<State>)
        ensures
            target is None <==> self.language == language,
            target matches Some(state) ==> state == with_language(*self, language),
    {
        if self.language == language {
            None
        } else {
            Some(State { language, ..*self })
        }
    }

    /// Where the settings offer to switch the minigame off: `None` when it is off, else the
    /// state without it.
    pub fn minigame_off_switch(&self) -> (target: Option<State>)
        ensures
            target is None <==> self.minigame is None,
            target matches Some(state) ==> state == with_minigame(*self, None),
    {
        if self.minigame.is_some() {
            Some(State { minigame: None, ..*self })
        } else {
            None
        }
    }

    /// Where the settings offer to switch the minigame on: `None` when it is on, else the
    /// state that plays `game`.
    pub fn minigame_on_switch(&self, game: Minigame) -> (target: Option<State>)
        ensures
            target is None <==> self.minigame is Some,
            target matches Some(state) ==> state == with_minigame(*self, Some(game)),
    {
        if self.minigame.is_none() {
            Some(State { minigame: Some(game), ..*self })
        } else {
            None
        }
    }

    /// The resume as a link without a query asks for it: settings closed, light, no
    /// minigame, in English, with the given secret.
    pub fn landing(secret: Option<[u8; 8]>) -> (state: State)
        ensures
            !state.open,
            state.theme == Theme::Light,
            state.minigame is None,
            state.secret == secret,
            !state.reference,
            state.language == Language::English,
    {
        State {
            open: false,
            theme: Theme::Light,
            minigame: None,
            secret,
            reference: false,
            language: Language::English,
        }
    }

    /// The page background of the theme.
    pub fn background_color(&self) -> (color: Option<u32>)
        ensures
            color == theme_colors(self.theme).background,
    {
        self.theme.colors().background
    }

    /// The color of plain text.
    pub fn text_color(&self) -> (color: u32)
        ensures
            color == theme_colors(self.theme).text,
    {
        self.theme.colors().text
    }

    /// The color of a link.
    pub fn link_color(&self) -> (color: u32)
        ensures
            color == theme_colors(self.theme).link,
    {
        self.theme.colors().link
    }

    /// The color of a link that leads nowhere.
    pub fn disabled_link_color(&self) -> (color: u32)
        ensures
            color == theme_colors(self.theme).disabled_link,
    {
        self.theme.colors().disabled_link
    }

    /// The color of a piece of text: the link color where it is a link, else the text color.
    pub fn span_color(&self, linked: bool) -> (color: u32)
        ensures
            color == if linked {
                theme_colors(self.theme).link
            } else {
                theme_colors(self.theme).text
            },
    {
        if linked {
            self.link_color()
        } else {
            self.text_color()
        }
    }

    /// Whether the link carries `secret`, which shows the phone number.
    pub fn knows_secret(&self, secret: &[u8; 8]) -> (known: bool)
        ensures
            known == (self.secret matches Some(s) && s@ == secret@),
    {
        match self.secret {
            None => false,
            Some(s) => {
                let mut i: usize = 0;
                while i < 8
                    invariant
                        0 <= i <= 8,
                        self.secret == Some(s),
                        forall|k: int| 0 <= k < i ==> s@[k] == secret@[k],
                    decreases 8 - i,
                {
                    if s[i] != secret[i] {
                        proof {
                            assert(s@[i as int] != secret@[i as int]);
                        }
                        return false;
                    }
                    i += 1;
                }
                proof {
                    assert(s@ =~= secret@);
                }
                true
            },
        }
    }
}

} // verus!
