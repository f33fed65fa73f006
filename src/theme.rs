use vstd::prelude::*;

verus! {

/// Colour scheme of the interface.
#[derive(Debug, Clone, Copy, PartialEq, Eq, Structural)]
pub enum Theme {
    Light,
    Dark,
}

/// The stored name of a theme.
pub open spec fn theme_name(t: Theme) -> Seq<char> {
    match t {
        Theme::Light => "light"@,
        Theme::Dark => "dark"@,
    }
}

/// Whether two strings hold the same characters.
fn same_text(a: &str, b: &str) -> (r: bool)
    ensures
        r == (a@ == b@),
{
    let n = a.unicode_len();
    if n != b.unicode_len() {
        return false;
    }
    let mut i: usize = 0;
    while i < n
        invariant
            n == a@.len(),
            n == b@.len(),
            i <= n,
            forall|j: int| 0 <= j < i ==> a@[j] == b@[j],
        decreases n - i,
    {
        if a.get_char(i) != b.get_char(i) {
            return false;
        }
        i = i + 1;
    }
    assert(a@ =~= b@);
    true
}

impl Theme {
    /// The stored name of the theme.
    pub fn to_string(&self) -> (r: &'static str)
        ensures
            r@ == theme_name(*self),
    {
        match self {
            Theme::Light => "light",
            Theme::Dark => "dark",
        }
    }

    /// The theme with the stored name `s`, if any.
    pub fn from_string(s: &str) -> (r: Option<Theme>)
        ensures
            match r {
                Some(t) => theme_name(t) == s@,
                None => s@ != theme_name(Theme::Light) && s@ != theme_name(Theme::Dark),
            },
    {
        if same_text(s, "light") {
            Some(Theme::Light)
        } else if same_text(s, "dark") {
            Some(Theme::Dark)
        } else {
            None
        }
    }

    /// The other theme.
    pub fn toggle(&self) -> (r: Theme)
        ensures
            r != *self,
    {
        match self {
            Theme::Light => Theme::Dark,
            Theme::Dark => Theme::Light,
        }
    }
}

impl Default for Theme {
    fn default() -> (r: Theme)
        ensures
            r == Theme::Light,
    {
        Theme::Light
    }
}

} // verus!
