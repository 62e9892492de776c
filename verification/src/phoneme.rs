//! The vowels to practise, the formants that each aims at, and the choice among them.

use crate::float::Single;
use crate::number::whole32;
use vstd::prelude::*;

verus! {

/// A vowel.
#[derive(Debug, Clone, Copy, PartialEq, Eq, Hash, Structural)]
pub enum Phoneme {
    /// as in beet
    I,
    /// as in bait
    E,
    /// as in bat
    Ae,
    /// as in bot
    A,
    /// as in boat
    O,
    /// as in boot
    U,
}

impl Phoneme {
    /// Every vowel, in the order in which they are offered.
    pub const ALL: [Phoneme; 6] = [
        Phoneme::I,
        Phoneme::E,
        Phoneme::Ae,
        Phoneme::A,
        Phoneme::O,
        Phoneme::U,
    ];

    /// The text that stands for the vowel.
    pub open spec fn text(self) -> Seq<char> {
        match self {
            Phoneme::I => "/i/  (beet)"@,
            Phoneme::E => "/e/  (bait)"@,
            Phoneme::Ae => "/æ/  (bat)"@,
            Phoneme::A => "/ɑ/  (bot)"@,
            Phoneme::O => "/o/  (boat)"@,
            Phoneme::U => "/u/  (boot)"@,
        }
    }

    /// The vowel in phonetic script, with an example.
    pub fn label(&self) -> (r: &'static str)
        ensures
            r@ == self.text(),
    {
        match self {
            Phoneme::I => "/i/  (beet)",
            Phoneme::E => "/e/  (bait)",
            Phoneme::Ae => "/æ/  (bat)",
            Phoneme::A => "/ɑ/  (bot)",
            Phoneme::O => "/o/  (boat)",
            Phoneme::U => "/u/  (boot)",
        }
    }
}

/// The mean and the standard deviation in Hz of each formant that a vowel aims at.
#[derive(Debug, Clone, Copy)]
pub struct FormantTarget {
    pub f1: (Single, Single),
    pub f2: (Single, Single),
    pub f3: (Single, Single),
    pub f4: (Single, Single),
}

impl FormantTarget {
    /// The mean and the standard deviation of formant `idx`, counted from 0.
    pub open spec fn pair(self, idx: int) -> (Single, Single) {
        if idx == 0 {
            self.f1
        } else if idx == 1 {
            self.f2
        } else if idx == 2 {
            self.f3
        } else {
            self.f4
        }
    }

    /// The mean and the standard deviation of formant `idx`, counted from 0.
    pub fn slot(&self, idx: usize) -> (r: (Single, Single))
        requires
            idx < 4,
        ensures
            r == self.pair(idx as int),
    {
        match idx {
            0 => self.f1,
            1 => self.f2,
            2 => self.f3,
            _ => self.f4,
        }
    }

    /// Whether the target has the means and deviations of a row of whole numbers.
    pub open spec fn is_row(self, row: [(u32, u32); 4]) -> bool {
        forall|i: int|
            0 <= i < 4 ==> {
                &&& (#[trigger] self.pair(i)).0@ == whole32(row@[i].0 as nat)
                &&& self.pair(i).1@ == whole32(row@[i].1 as nat)
            }
    }
}

/// What each vowel aims at: the mean and the standard deviation in Hz of F1 to F4,
/// ballpark figures for higher voices.
pub const PHONEME_TARGETS: [(Phoneme, [(u32, u32); 4]); 6] = [
    (Phoneme::I, [(310, 30), (2790, 150), (3310, 150), (4200, 200)]),
    (Phoneme::E, [(430, 35), (2480, 140), (3200, 150), (4100, 200)]),
    (Phoneme::Ae, [(750, 45), (2100, 140), (3000, 150), (3900, 200)]),
    (Phoneme::A, [(780, 45), (1350, 120), (2900, 150), (3800, 200)]),
    (Phoneme::O, [(450, 35), (900, 100), (2800, 150), (3700, 200)]),
    (Phoneme::U, [(330, 30), (850, 100), (2700, 150), (3600, 200)]),
];

/// The table and the list of vowels agree, entry by entry, and every vowel is in them once.
pub proof fn lemma_targets_in_sync(phoneme: Phoneme)
    ensures
        forall|i: int| 0 <= i < 6 ==> (#[trigger] PHONEME_TARGETS@[i]).0 == Phoneme::ALL@[i],
        exists|i: int| 0 <= i < 6 && #[trigger] Phoneme::ALL@[i] == phoneme,
        forall|i: int, j: int|
            0 <= i < j < 6 ==> #[trigger] Phoneme::ALL@[i] != #[trigger] Phoneme::ALL@[j],
{
    let all = Phoneme::ALL@;
    assert(all[0] == Phoneme::I && all[1] == Phoneme::E && all[2] == Phoneme::Ae);
    assert(all[3] == Phoneme::A && all[4] == Phoneme::O && all[5] == Phoneme::U);
}

fn target_of(row: &[(u32, u32); 4]) -> (r: FormantTarget)
    ensures
        r.is_row(*row),
{
    FormantTarget {
        f1: (Single::from_whole(row[0].0 as u64), Single::from_whole(row[0].1 as u64)),
        f2: (Single::from_whole(row[1].0 as u64), Single::from_whole(row[1].1 as u64)),
        f3: (Single::from_whole(row[2].0 as u64), Single::from_whole(row[2].1 as u64)),
        f4: (Single::from_whole(row[3].0 as u64), Single::from_whole(row[3].1 as u64)),
    }
}

/// What a vowel aims at.
pub fn target_for(phoneme: Phoneme) -> (r: FormantTarget)
    ensures
        forall|i: int|
            0 <= i < 6 && (#[trigger] PHONEME_TARGETS@[i]).0 == phoneme ==> r.is_row(
                PHONEME_TARGETS@[i].1,
            ),
{
    proof {
        lemma_targets_in_sync(phoneme);
    }
    let mut i: usize = 0;
    while i < 5 && PHONEME_TARGETS[i].0 != phoneme
        invariant
            i <= 5,
            forall|j: int| 0 <= j < i ==> (#[trigger] PHONEME_TARGETS@[j]).0 != phoneme,
        decreases 5 - i,
    {
        i = i + 1;
    }
    target_of(&PHONEME_TARGETS[i].1)
}

/// The names of the formants.
pub const FORMANT_LABELS: [&'static str; 4] = ["F1", "F2", "F3", "F4"];

/// The vowel that is being practised, if any.
pub struct PhonemeSelection {
    pub active: Option<Phoneme>,
}

impl Default for PhonemeSelection {
    fn default() -> (r: Self)
        ensures
            r.active is None,
    {
        PhonemeSelection { active: None }
    }
}

/// The text for a choice of vowel.
pub open spec fn choice_text(choice: Option<Phoneme>) -> Seq<char> {
    match choice {
        Some(phoneme) => phoneme.text(),
        None => "None"@,
    }
}

/// The label for a choice of vowel.
pub fn choice_label(choice: Option<Phoneme>) -> (r: &'static str)
    ensures
        r@ == choice_text(choice),
{
    match choice {
        Some(phoneme) => phoneme.label(),
        None => "None",
    }
}

/// The choices that are offered, by number: none, then every vowel.
pub open spec fn choice_at(i: int) -> Option<Phoneme> {
    if i == 0 {
        None
    } else {
        Some(Phoneme::ALL@[i - 1])
    }
}

/// The number of choices that are offered.
pub const CHOICES: usize = 7;

/// Choice `i` of those that are offered: none, then every vowel.
pub fn choice(i: usize) -> (r: Option<Phoneme>)
    requires
        i < CHOICES,
    ensures
        r == choice_at(i as int),
{
    if i == 0 {
        None
    } else {
        Some(Phoneme::ALL[i - 1])
    }
}

impl PhonemeSelection {
    /// Makes a choice.
    pub fn set(&mut self, phoneme: Option<Phoneme>)
        ensures
            final(self).active == phoneme,
    {
        self.active = phoneme;
    }

    /// The label of the current choice.
    pub fn current_label(&self) -> (r: &'static str)
        ensures
            r@ == choice_text(self.active),
    {
        choice_label(self.active)
    }

    /// Whether a choice is the current one.
    pub fn is_selected(&self, choice: Option<Phoneme>) -> (r: bool)
        ensures
            r == (self.active == choice),
    {
        match (self.active, choice) {
            (None, None) => true,
            (Some(a), Some(b)) => a == b,
            _ => false,
        }
    }

    /// Makes choice `i` of those that are offered if it was clicked.
    pub fn click(&mut self, i: usize, clicked: bool)
        requires
            i < CHOICES,
        ensures
            final(self).active == if clicked {
                choice_at(i as int)
            } else {
                old(self).active
            },
    {
        if clicked {
            self.set(choice(i));
        }
    }

    /// What the vowel that is being practised aims at.
    pub fn target(&self) -> (r: Option<FormantTarget>)
        ensures
            match (r, self.active) {
                (Some(t), Some(phoneme)) => forall|i: int|
                    0 <= i < 6 && (#[trigger] PHONEME_TARGETS@[i]).0 == phoneme ==> t.is_row(
                        PHONEME_TARGETS@[i].1,
                    ),
                (None, None) => true,
                _ => false,
            },
    {
        match self.active {
            Some(phoneme) => Some(target_for(phoneme)),
            None => None,
        }
    }
}

/// How the formants are laid out.
#[derive(Clone, Copy, PartialEq, Eq, Structural)]
pub enum ViewMode {
    /// all in one plot
    Grouped,
    /// each in a plot of its own
    Split,
}

impl Default for ViewMode {
    fn default() -> (r: Self)
        ensures
            r == ViewMode::Grouped,
    {
        ViewMode::Grouped
    }
}

} // verus!
