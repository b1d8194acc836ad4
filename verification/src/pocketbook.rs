//! The dialog of the device, as far as it is computed: which icon it shows,
//! and the arguments that the dialog program is started with.

use vstd::prelude::*;
use vstd::string::StringExecFns;

verus! {

/// The icon of a dialog.
#[derive(Clone, Copy, Debug, PartialEq, Eq, Structural)]
pub enum Icon {
    /// No icon at all.
    Blank,
    Info,
    Question,
    Attention,
    X,
    WLan,
}

/// The number by which the dialog program knows an icon.
pub open spec fn icon_code(icon: Icon) -> Seq<char> {
    match icon {
        Icon::Blank => "0"@,
        Icon::Info => "1"@,
        Icon::Question => "2"@,
        Icon::Attention => "3"@,
        Icon::X => "4"@,
        Icon::WLan => "5"@,
    }
}

/// The arguments of a dialog: the icon, an empty title, the text, and the
/// buttons from left to right.
pub open spec fn dialog_arguments(icon: Icon, text: Seq<char>, buttons: Seq<Seq<char>>) -> Seq<
    Seq<char>,
> {
    seq![icon_code(icon), Seq::empty(), text] + buttons
}

impl Icon {
    /// The number by which the dialog program knows the icon.
    pub fn code(&self) -> (code: &'static str)
        ensures
            code@ == icon_code(*self),
    {
        match self {
            Icon::Blank => "0",
            Icon::Info => "1",
            Icon::Question => "2",
            Icon::Attention => "3",
            Icon::X => "4",
            Icon::WLan => "5",
        }
    }
}

/// The arguments to start the dialog program with.
pub fn arguments(icon: Icon, text: &str, buttons: &Vec<String>) -> (all: Vec<String>)
    ensures
        all.deep_view() == dialog_arguments(icon, text@, buttons.deep_view()),
{
    let mut all: Vec<String> = Vec::new();
    all.push(String::from_str(icon.code()));
    all.push(String::new());
    all.push(String::from_str(text));
    let ghost head = all.deep_view();
    assert(head =~= seq![icon_code(icon), Seq::empty(), text@]);
    let mut i: usize = 0;
    while i < buttons.len()
        invariant
            i <= buttons.len(),
            all.deep_view() == head + buttons.deep_view().take(i as int),
        decreases buttons.len() - i,
    {
        let ghost before = all.deep_view();
        all.push(buttons[i].clone());
        proof {
            assert(all.deep_view() =~= before.push(buttons[i as int]@));
            assert(buttons.deep_view().take(i + 1) =~= buttons.deep_view().take(i as int).push(
                buttons[i as int]@,
            ));
        }
        i += 1;
    }
    assert(buttons.deep_view().take(i as int) =~= buttons.deep_view());
    all
}

} // verus!
