//! Settings of a run: where to read and post, the reaction categories, and
//! the residual leaderboard.

use vstd::prelude::*;

verus! {

/// Capacity of a leaderboard when the settings name none.
pub fn default_max() -> (r: usize)
    ensures
        r == 15,
{
    15
}

/// Users fetched per reaction kind when the settings name no limit.
pub fn default_per_reaction_limit() -> (r: u8)
    ensures
        r == 50,
{
    50
}

/// A reaction kind: a custom emoji, the same as another when the ids agree,
/// or a literal glyph, the same as another when the strings agree.
pub enum Emoji {
    Custom { name: String, id: u64 },
    Unicode { string: String },
}

impl Clone for Emoji {
    fn clone(&self) -> (r: Self)
        ensures
            r == *self,
    {
        match self {
            Emoji::Custom { name, id } => Emoji::Custom { name: name.clone(), id: *id },
            Emoji::Unicode { string } => Emoji::Unicode { string: string.clone() },
        }
    }
}

/// Whether two reaction kinds are the same kind.
pub open spec fn same_kind(a: Emoji, b: Emoji) -> bool {
    match (a, b) {
        (Emoji::Custom { id, .. }, Emoji::Custom { id: id2, .. }) => id == id2,
        (Emoji::Unicode { string }, Emoji::Unicode { string: string2 }) => string@ == string2@,
        _ => false,
    }
}

/// The text that names a reaction kind.
pub open spec fn emoji_text(e: Emoji) -> Seq<char> {
    match e {
        Emoji::Custom { name, .. } => name@,
        Emoji::Unicode { string } => string@,
    }
}

pub fn same_emoji(a: &Emoji, b: &Emoji) -> (r: bool)
    ensures
        r == same_kind(*a, *b),
{
    match (a, b) {
        (Emoji::Custom { id, .. }, Emoji::Custom { id: id2, .. }) => *id == *id2,
        (Emoji::Unicode { string }, Emoji::Unicode { string: string2 }) => *string == *string2,
        _ => false,
    }
}

pub fn emoji_as_string(emoji: &Emoji) -> (r: &str)
    ensures
        r@ == emoji_text(*emoji),
{
    match emoji {
        Emoji::Custom { name, .. } => name.as_str(),
        Emoji::Unicode { string } => string.as_str(),
    }
}

/// One named category: the posts ranked by how often they got `emoji`.
pub struct Toplist {
    pub max: usize,
    pub emoji: Emoji,
    pub min_reactions: Option<u64>,
}

/// The residual leaderboard.
pub struct Other {
    pub enabled: bool,
    pub max: usize,
    /// Reaction kinds that never count towards it.
    pub ignore: Vec<Emoji>,
    /// Whether a post that matched a named category stays out of it.
    pub exclusive: bool,
}

pub struct Config {
    pub channel_id: u64,
    pub target_channel_id: Option<u64>,
    pub per_reaction_limit: u8,
    pub toplist: Vec<Toplist>,
    pub other: Other,
}

/// Settings rejected before a run starts.
#[derive(PartialEq, Eq, Structural, Debug, Clone, Copy)]
pub enum ConfigError {
    /// The category at `index` holds no entry.
    ZeroCategoryCapacity { index: usize },
    /// The category at `index` repeats the reaction kind of an earlier one.
    DuplicateCategory { index: usize },
    /// The residual leaderboard holds no entry.
    ZeroOtherCapacity,
}

/// The category at `i` is unusable: zero capacity, or a kind already taken.
pub open spec fn category_faulty(cats: Seq<Toplist>, i: int) -> bool {
    cats[i].max == 0 || exists|j: int| 0 <= j < i && same_kind(#[trigger] cats[j].emoji, cats[i].emoji)
}

/// No category is faulty.
pub open spec fn categories_sound(cats: Seq<Toplist>) -> bool {
    forall|i: int| 0 <= i < cats.len() ==> !category_faulty(cats, i)
}

/// The first `n` categories are not faulty.
pub open spec fn sound_before(cats: Seq<Toplist>, n: int) -> bool {
    forall|j: int| 0 <= j < n ==> !category_faulty(cats, j)
}

/// Settings a run can start from.
pub open spec fn config_sound(c: Config) -> bool {
    categories_sound(c.toplist@) && c.other.max > 0
}

/// `e` is the fault reported for `c`.
pub open spec fn fault_matches(c: Config, e: ConfigError) -> bool {
    let cats = c.toplist@;
    match e {
        ConfigError::ZeroCategoryCapacity { index } => index < cats.len() && cats[index as int].max
            == 0 && sound_before(cats, index as int),
        ConfigError::DuplicateCategory { index } => index < cats.len() && cats[index as int].max != 0
            && category_faulty(cats, index as int) && sound_before(cats, index as int),
        ConfigError::ZeroOtherCapacity => categories_sound(cats) && c.other.max == 0,
    }
}

impl Config {
    /// Where the leaderboards are posted: the target channel, else the
    /// channel that is read.
    pub fn target_channel_id(&self) -> (r: u64)
        ensures
            r == match self.target_channel_id {
                Some(t) => t,
                None => self.channel_id,
            },
    {
        match self.target_channel_id {
            Some(t) => t,
            None => self.channel_id,
        }
    }

    /// Checks the settings: the first faulty category is reported, then a
    /// residual leaderboard of zero capacity.
    pub fn validate(&self) -> (r: Result<(), ConfigError>)
        ensures
            r is Ok <==> config_sound(*self),
            r matches Err(e) ==> fault_matches(*self, e),
    {
        let cats = &self.toplist;
        let mut i: usize = 0;
        while i < cats.len()
            invariant
                cats@ == self.toplist@,
                i <= cats@.len(),
                forall|k: int| 0 <= k < i ==> !category_faulty(cats@, k),
            decreases cats@.len() - i,
        {
            let mut dup = false;
            let mut j: usize = 0;
            while j < i
                invariant
                    i < cats@.len(),
                    j <= i,
                    dup == exists|k: int| 0 <= k < j && same_kind(#[trigger] cats@[k].emoji, cats@[i as int].emoji),
                decreases i - j,
            {
                if same_emoji(&cats[j].emoji, &cats[i].emoji) {
                    dup = true;
                }
                j = j + 1;
            }
            if cats[i].max == 0 || dup {
                assert(category_faulty(cats@, i as int));
                if cats[i].max == 0 {
                    return Err(ConfigError::ZeroCategoryCapacity { index: i });
                } else {
                    return Err(ConfigError::DuplicateCategory { index: i });
                }
            }
            i = i + 1;
        }
        if self.other.max == 0 {
            Err(ConfigError::ZeroOtherCapacity)
        } else {
            Ok(())
        }
    }
}

} // verus!
