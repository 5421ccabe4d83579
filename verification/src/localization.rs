use vstd::prelude::*;

verus! {

/// The texts of the resume in one language.
pub struct Localization {
    pub location: &'static str,
    pub settings_theme_label: &'static str,
    pub settings_theme_light: &'static str,
    pub settings_theme_dark: &'static str,
    pub settings_minigame_label: &'static str,
    pub settings_minigame_off: &'static str,
    pub settings_minigame_on: &'static str,
    pub minigame_title: &'static str,
    pub work_experience_title: &'static str,
    pub work_sections: &'static [WorkSection],
    pub technologies_title: &'static str,
    pub technology_lines: &'static [TechnologyLine],
    pub contributions_title: &'static str,
    pub contributions_lines: &'static [&'static [Span]],
    pub projects_title: &'static str,
    pub projects_lines: &'static [&'static [Span]],
    pub blog_title: &'static str,
    pub blog_lines: &'static [&'static [Span]],
    pub education_title: &'static str,
    pub education: Education,
}

/// One position held, with a line of text for each project in it.
pub struct WorkSection {
    pub title: &'static str,
    pub date_range: &'static str,
    pub company: &'static str,
    pub location: &'static str,
    pub projects: &'static [&'static [Span]],
}

/// A kind of technology and the ones known of it.
pub struct TechnologyLine {
    pub title: &'static str,
    pub content: &'static str,
}

/// The education that led to a degree.
pub struct Education {
    pub title: &'static str,
    pub date_range: &'static str,
    pub company: &'static str,
    pub location: &'static str,
}

/// A piece of a line of text: bold or not, and a link target where it is a link.
pub struct Span {
    pub text: &'static str,
    pub bold: bool,
    pub link: Option<&'static str>,
}

impl Span {
    /// Plain text.
    pub fn regular(text: &'static str) -> (span: Self)
        ensures
            span.text == text,
            !span.bold,
            span.link is None,
    {
        Span { text, bold: false, link: None }
    }

    /// Bold text.
    pub fn bold(text: &'static str) -> (span: Self)
        ensures
            span.text == text,
            span.bold,
            span.link is None,
    {
        Span { text, bold: true, link: None }
    }

    /// Bold text that links to `target`.
    pub fn link_bold(text: &'static str, target: &'static str) -> (span: Self)
        ensures
            span.text == text,
            span.bold,
            span.link == Some(target),
    {
        Span { text, bold: true, link: Some(target) }
    }
}

} // verus!
