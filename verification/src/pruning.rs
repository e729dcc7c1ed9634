//! Storage profiles and the tracker of recent state roots.
//!
//! The tracker records `(block_number, state_root)` pairs, one per block. When the history exceeds
//! [`PruningConfig::keep_recent`], the oldest pair leaves it.

use std::collections::VecDeque;

use vstd::prelude::*;

use crate::primitives::ShellHash;

verus! {

/// Blocks whose witness bundles are kept where nothing else is configured.
pub const DEFAULT_WITNESS_RETENTION: u64 = 128;

/// Blocks whose bodies are kept where nothing else is configured.
pub const DEFAULT_BODY_RETENTION: u64 = 512;

/// Even in archive mode the in-memory tracker holds no more entries than this.
pub const ARCHIVE_MAX_TRACKED: usize = 10_000;

/// High-level node storage classification.
///
/// Each profile stands for a set of pruning parameters. White-paper names are `Archive`, `Full` and
/// `Pruned (Rolling)`; `Light` is an accepted alias for `Pruned`.
///
/// | Profile (WP name)        | body_retention | witness_retention | proof_replacement_grace | keep_recent |
/// |--------------------------|----------------|-------------------|-------------------------|-------------|
/// | Archive                  | 0 (forever)    | 0 (forever)       | u64::MAX (never)        | 0 (forever) |
/// | Full                     | 0 (forever)    | 128               | 0 (immediate)           | 0 (forever) |
/// | Pruned / Rolling / Light | 4 096          | 64                | 0 (immediate)           | 4 096       |
#[derive(Debug, Clone, Copy, PartialEq, Eq, Structural)]
pub enum StorageProfile {
    /// Complete forensic archive: bodies, signatures and proofs are all kept forever, and witness
    /// bundles are not deleted even when a proof arrives.
    Archive,
    /// Recommended full-node profile: bodies are kept forever, signatures are replaced by proofs
    /// once the proof lands.
    Full,
    /// Rolling window: only the most recent blocks are retained.
    Light,
}

impl Default for StorageProfile {
    fn default() -> (r: Self)
        ensures
            r == StorageProfile::Full,
    {
        StorageProfile::Full
    }
}

/// Configuration of pruning.
#[derive(Debug, Clone, Copy, PartialEq, Eq, Structural)]
pub struct PruningConfig {
    /// Number of recent state roots to retain; `0` evicts none.
    pub keep_recent: u64,
    /// Number of recent blocks whose witness bundles are retained; `0` prunes none. 128 by default.
    pub witness_retention: u64,
    /// Number of recent blocks whose full bodies are retained; `0` prunes none. 512 by default.
    pub body_retention: u64,
    /// Number of blocks to wait after a proof is stored before the witness bundle that it replaces
    /// is deleted; `0`, the default, deletes at once, `u64::MAX` never.
    pub proof_replacement_grace: u64,
    /// Kept for compatibility; nothing depends on it.
    pub state_pruning_experimental: bool,
}

impl Default for PruningConfig {
    fn default() -> (r: Self)
        ensures
            r == (PruningConfig {
                keep_recent: 0,
                witness_retention: DEFAULT_WITNESS_RETENTION,
                body_retention: DEFAULT_BODY_RETENTION,
                proof_replacement_grace: 0,
                state_pruning_experimental: false,
            }),
    {
        PruningConfig {
            keep_recent: 0,
            witness_retention: DEFAULT_WITNESS_RETENTION,
            body_retention: DEFAULT_BODY_RETENTION,
            proof_replacement_grace: 0,
            state_pruning_experimental: false,
        }
    }
}

/// A character with an ASCII capital replaced by its small letter.
pub open spec fn ascii_lower(c: char) -> char {
    if 'A' <= c <= 'Z' {
        (c as u32 + 32) as char
    } else {
        c
    }
}

/// A text with every ASCII capital replaced by its small letter.
pub open spec fn ascii_lowered(text: Seq<char>) -> Seq<char> {
    Seq::new(text.len(), |i: int| ascii_lower(text[i]))
}

/// Whether a text holds ASCII characters only.
pub open spec fn is_ascii_text(text: Seq<char>) -> bool {
    forall|i: int| 0 <= i < text.len() ==> text[i] <= '\x7f'
}

/// The lower-case form of a text, as `str::to_lowercase` gives it.
pub uninterp spec fn lowercase(text: Seq<char>) -> Seq<char>;

/// `str::to_lowercase`: the lower-case form of the text by the Unicode rules. It depends on the text
/// alone, and on a text of ASCII characters it replaces each capital by its small letter and keeps
/// the rest.
#[verifier::external_body]
fn to_lowercase(text: &str) -> (r: String)
    ensures
        r@ == lowercase(text@),
        is_ascii_text(text@) ==> r@ == ascii_lowered(text@),
{
    text.to_lowercase()
}

fn same_text(a: &String, b: &str) -> (r: bool)
    ensures
        r == (a@ == b@),
{
    *a == b.to_owned()
}

/// The profile that a lower-case name stands for.
pub open spec fn named_profile(name: Seq<char>) -> Option<StorageProfile> {
    if name == "archive"@ {
        Some(StorageProfile::Archive)
    } else if name == "full"@ {
        Some(StorageProfile::Full)
    } else if name == "light"@ || name == "pruned"@ || name == "rolling"@ {
        Some(StorageProfile::Light)
    } else {
        None
    }
}

impl StorageProfile {
    /// The canonical lower-case name.
    pub open spec fn name(self) -> Seq<char> {
        match self {
            StorageProfile::Archive => "archive"@,
            StorageProfile::Full => "full"@,
            StorageProfile::Light => "light"@,
        }
    }

    /// Returns the canonical lower-case name used in logs and on the command line.
    pub fn as_str(self) -> (r: &'static str)
        ensures
            r@ == self.name(),
    {
        match self {
            StorageProfile::Archive => "archive",
            StorageProfile::Full => "full",
            StorageProfile::Light => "light",
        }
    }

    /// Returns the white-paper name: `archive`, `full`, or `pruned` for the rolling window.
    pub fn whitepaper_name(self) -> (r: &'static str)
        ensures
            r@ == match self {
                StorageProfile::Archive => "archive"@,
                StorageProfile::Full => "full"@,
                StorageProfile::Light => "pruned"@,
            },
    {
        match self {
            StorageProfile::Archive => "archive",
            StorageProfile::Full => "full",
            StorageProfile::Light => "pruned",
        }
    }

    /// The profile's values for
    /// `(body_retention, witness_retention, keep_recent, proof_replacement_grace)`.
    pub open spec fn defaults(self) -> (u64, u64, u64, u64) {
        match self {
            StorageProfile::Archive => (0, 0, 0, u64::MAX),
            StorageProfile::Full => (0, DEFAULT_WITNESS_RETENTION, 0, 0),
            StorageProfile::Light => (4_096, 64, 4_096, 0),
        }
    }

    /// Returns the profile's values for
    /// `(body_retention, witness_retention, keep_recent, proof_replacement_grace)`.
    pub fn pruning_defaults(self) -> (r: (u64, u64, u64, u64))
        ensures
            r == self.defaults(),
    {
        match self {
            StorageProfile::Archive => (0, 0, 0, u64::MAX),
            StorageProfile::Full => (0, DEFAULT_WITNESS_RETENTION, 0, 0),
            StorageProfile::Light => (4_096, 64, 4_096, 0),
        }
    }

    /// The configuration of a profile, with the given fields in place of its own.
    pub open spec fn config(
        self,
        body_retention: Option<u64>,
        witness_retention: Option<u64>,
        keep_recent: Option<u64>,
    ) -> PruningConfig {
        PruningConfig {
            body_retention: match body_retention {
                Some(n) => n,
                None => self.defaults().0,
            },
            witness_retention: match witness_retention {
                Some(n) => n,
                None => self.defaults().1,
            },
            keep_recent: match keep_recent {
                Some(n) => n,
                None => self.defaults().2,
            },
            proof_replacement_grace: self.defaults().3,
            state_pruning_experimental: false,
        }
    }

    /// Builds a configuration from this profile. A `None` override means the profile's own value.
    pub fn to_pruning_config(
        self,
        body_retention: Option<u64>,
        witness_retention: Option<u64>,
        keep_recent: Option<u64>,
    ) -> (r: PruningConfig)
        ensures
            r == self.config(body_retention, witness_retention, keep_recent),
    {
        let (body, witness, keep, grace): (u64, u64, u64, u64) = self.pruning_defaults();
        PruningConfig {
            body_retention: body_retention.unwrap_or(body),
            witness_retention: witness_retention.unwrap_or(witness),
            keep_recent: keep_recent.unwrap_or(keep),
            proof_replacement_grace: grace,
            state_pruning_experimental: false,
        }
    }

    /// The profile that a configuration matches most closely.
    pub open spec fn of_config(cfg: PruningConfig) -> StorageProfile {
        if cfg.proof_replacement_grace == u64::MAX && cfg.body_retention == 0
            && cfg.witness_retention == 0 {
            StorageProfile::Archive
        } else if cfg.body_retention == 0 && cfg.witness_retention != 0 {
            StorageProfile::Full
        } else {
            StorageProfile::Light
        }
    }

    /// Infers the closest profile from a configuration. State-root retention (`keep_recent`) plays
    /// no part: it is independent of what block data is stored.
    pub fn from_pruning_config(cfg: &PruningConfig) -> (r: Self)
        ensures
            r == StorageProfile::of_config(*cfg),
    {
        if cfg.proof_replacement_grace == u64::MAX && cfg.body_retention == 0
            && cfg.witness_retention == 0 {
            StorageProfile::Archive
        } else if cfg.body_retention == 0 && cfg.witness_retention != 0 {
            StorageProfile::Full
        } else {
            StorageProfile::Light
        }
    }

    /// Parses a profile's name, in any case: `archive`, `full`, `pruned`, and `rolling` or `light`
    /// for the latter. Any other text is an error that lists the names.
    pub fn from_str(s: &str) -> (r: Result<Self, String>)
        ensures
            match r {
                Ok(profile) => named_profile(lowercase(s@)) == Some(profile),
                Err(message) => named_profile(lowercase(s@)) is None && message@
                    == "unknown storage profile '"@ + lowercase(s@)
                    + "'; valid values: archive, full, pruned (aliases: rolling, light)"@,
            },
            is_ascii_text(s@) ==> match r {
                Ok(profile) => named_profile(ascii_lowered(s@)) == Some(profile),
                Err(_) => named_profile(ascii_lowered(s@)) is None,
            },
    {
        let lower = to_lowercase(s);
        if same_text(&lower, "archive") {
            Ok(StorageProfile::Archive)
        } else if same_text(&lower, "full") {
            Ok(StorageProfile::Full)
        } else if same_text(&lower, "light") || same_text(&lower, "pruned") || same_text(
            &lower,
            "rolling",
        ) {
            Ok(StorageProfile::Light)
        } else {
            let mut message = "unknown storage profile '".to_owned();
            message.append(lower.as_str());
            message.append("'; valid values: archive, full, pruned (aliases: rolling, light)");
            Err(message)
        }
    }
}

impl std::str::FromStr for StorageProfile {
    type Err = String;

    /// Parses a profile's name; see [`StorageProfile::from_str`].
    fn from_str(s: &str) -> (r: Result<Self, String>)
        ensures
            match r {
                Ok(profile) => named_profile(lowercase(s@)) == Some(profile),
                Err(message) => named_profile(lowercase(s@)) is None && message@
                    == "unknown storage profile '"@ + lowercase(s@)
                    + "'; valid values: archive, full, pruned (aliases: rolling, light)"@,
            },
            is_ascii_text(s@) ==> match r {
                Ok(profile) => named_profile(ascii_lowered(s@)) == Some(profile),
                Err(_) => named_profile(ascii_lowered(s@)) is None,
            },
    {
        StorageProfile::from_str(s)
    }
}

impl PruningConfig {
    /// Convenience constructor for a node that keeps a window of state roots.
    pub fn new(keep_recent: u64) -> (r: Self)
        ensures
            r == (PruningConfig {
                keep_recent,
                witness_retention: DEFAULT_WITNESS_RETENTION,
                body_retention: DEFAULT_BODY_RETENTION,
                proof_replacement_grace: 0,
                state_pruning_experimental: false,
            }),
    {
        PruningConfig {
            keep_recent,
            witness_retention: DEFAULT_WITNESS_RETENTION,
            body_retention: DEFAULT_BODY_RETENTION,
            proof_replacement_grace: 0,
            state_pruning_experimental: false,
        }
    }

    /// Returns `true` when state roots are never evicted.
    pub fn is_archive(&self) -> (r: bool)
        ensures
            r == (self.keep_recent == 0),
    {
        self.keep_recent == 0
    }

    /// How many state roots a tracker with this configuration holds at most.
    pub open spec fn tracked_limit(self) -> nat {
        if self.keep_recent == 0 {
            ARCHIVE_MAX_TRACKED as nat
        } else {
            self.keep_recent as nat
        }
    }
}

/// Entry in the history of state roots.
#[derive(Debug, Clone, Copy, PartialEq, Eq)]
pub struct StateRootEntry {
    /// Height of the block.
    pub block_number: u64,
    /// Root of the world state after the block.
    pub state_root: ShellHash,
}

/// In-memory tracker that records state roots and evicts old ones according to the configured
/// retention window.
#[derive(Debug)]
pub struct StateRootTracker {
    config: PruningConfig,
    history: VecDeque<StateRootEntry>,
}

impl View for StateRootTracker {
    type V = Seq<StateRootEntry>;

    /// The tracked entries, oldest first.
    closed spec fn view(&self) -> Seq<StateRootEntry> {
        self.history@
    }
}

impl StateRootTracker {
    /// The tracker's configuration.
    pub closed spec fn settings(self) -> PruningConfig {
        self.config
    }

    /// Whether the tracker holds no more entries than its configuration allows.
    pub open spec fn bounded(self) -> bool {
        self@.len() <= self.settings().tracked_limit()
    }

    /// A tracker without entries.
    pub fn new(config: PruningConfig) -> (r: Self)
        ensures
            r@ == Seq::<StateRootEntry>::empty(),
            r.settings() == config,
            r.bounded(),
    {
        StateRootTracker { config, history: VecDeque::new() }
    }

    /// Records the state root of a block.
    ///
    /// If the history then exceeds what the configuration allows, the oldest entry is evicted and
    /// returned. In archive mode the limit only bounds memory.
    pub fn record(&mut self, block_number: u64, state_root: ShellHash) -> (r: Option<StateRootEntry>)
        ensures
            final(self).settings() == old(self).settings(),
            ({
                let longer = old(self)@.push(StateRootEntry { block_number, state_root });
                if longer.len() > old(self).settings().tracked_limit() {
                    r == Some(longer[0]) && final(self)@ == longer.drop_first()
                } else {
                    r is None && final(self)@ == longer
                }
            }),
            old(self).bounded() ==> final(self).bounded(),
    {
        self.history.push_back(StateRootEntry { block_number, state_root });
        let full: bool = if self.config.is_archive() {
            self.history.len() > ARCHIVE_MAX_TRACKED
        } else {
            self.history.len() as u64 > self.config.keep_recent
        };
        if full {
            let evicted = self.history.pop_front();
            assert(self@ =~= old(self)@.push(StateRootEntry { block_number, state_root }).drop_first());
            evicted
        } else {
            None
        }
    }

    /// Number of state roots currently tracked.
    pub fn len(&self) -> (r: usize)
        ensures
            r == self@.len(),
    {
        self.history.len()
    }

    /// Returns `true` when no roots are tracked.
    pub fn is_empty(&self) -> (r: bool)
        ensures
            r == (self@.len() == 0),
    {
        self.history.len() == 0
    }

    /// Oldest tracked entry, if any.
    pub fn oldest(&self) -> (r: Option<&StateRootEntry>)
        ensures
            match r {
                Some(e) => self@.len() > 0 && *e == self@.first(),
                None => self@.len() == 0,
            },
    {
        if self.history.len() == 0 {
            None
        } else {
            Some(&self.history[0])
        }
    }

    /// Most recent tracked entry, if any.
    pub fn latest(&self) -> (r: Option<&StateRootEntry>)
        ensures
            match r {
                Some(e) => self@.len() > 0 && *e == self@.last(),
                None => self@.len() == 0,
            },
    {
        if self.history.len() == 0 {
            None
        } else {
            Some(&self.history[self.history.len() - 1])
        }
    }

    /// Read-only access to the full history.
    pub fn history(&self) -> (r: &VecDeque<StateRootEntry>)
        ensures
            r@ == self@,
    {
        &self.history
    }

    /// Reference to the active configuration.
    pub fn config(&self) -> (r: &PruningConfig)
        ensures
            *r == self.settings(),
    {
        &self.config
    }
}

/// A profile's own configuration is classified as that profile again.
pub proof fn law_profile_round_trip(profile: StorageProfile)
    ensures
        StorageProfile::of_config(profile.config(None, None, None)) == profile,
{
}

/// A profile's name parses back to the profile.
pub proof fn law_profile_name_parses(profile: StorageProfile)
    ensures
        named_profile(profile.name()) == Some(profile),
{
    reveal_strlit("archive");
    reveal_strlit("full");
    reveal_strlit("light");
    assert("full"@.len() != "archive"@.len());
    assert("light"@.len() != "archive"@.len());
    assert("light"@.len() != "full"@.len());
}

/// The entries of a tracker after recording some roots one by one, from a history.
pub open spec fn recorded(
    config: PruningConfig,
    history: Seq<StateRootEntry>,
    added: Seq<StateRootEntry>,
) -> Seq<StateRootEntry>
    decreases added.len(),
{
    if added.len() == 0 {
        history
    } else {
        let longer = recorded(config, history, added.drop_last()).push(added.last());
        if longer.len() > config.tracked_limit() {
            longer.drop_first()
        } else {
            longer
        }
    }
}

/// However many roots are recorded, a tracker holds the most recent ones, in order, and as many of
/// them as its configuration allows.
pub proof fn law_tracker_keeps_most_recent(config: PruningConfig, added: Seq<StateRootEntry>)
    ensures
        ({
            let limit = config.tracked_limit();
            recorded(config, Seq::empty(), added) == if added.len() > limit {
                added.skip(added.len() - limit)
            } else {
                added
            }
        }),
    decreases added.len(),
{
    if added.len() > 0 {
        law_tracker_keeps_most_recent(config, added.drop_last());
        let limit = config.tracked_limit();
        let before = recorded(config, Seq::empty(), added.drop_last());
        if added.len() > limit {
            assert(before.push(added.last()).drop_first() =~= added.skip(added.len() - limit));
        } else {
            assert(before.push(added.last()) =~= added);
        }
    }
}

/// A name stands for the archive, the full or the light profile exactly if it is one of the names of
/// that profile: the light one goes by three.
pub proof fn law_names_of_profiles(name: Seq<char>)
    ensures
        named_profile(name) == Some(StorageProfile::Archive) <==> name == seq![
            'a',
            'r',
            'c',
            'h',
            'i',
            'v',
            'e',
        ],
        named_profile(name) == Some(StorageProfile::Full) <==> name == seq!['f', 'u', 'l', 'l'],
        named_profile(name) == Some(StorageProfile::Light) <==> name == seq![
            'l',
            'i',
            'g',
            'h',
            't',
        ] || name == seq!['p', 'r', 'u', 'n', 'e', 'd'] || name == seq![
            'r',
            'o',
            'l',
            'l',
            'i',
            'n',
            'g',
        ],
{
    reveal_strlit("archive");
    reveal_strlit("full");
    reveal_strlit("light");
    reveal_strlit("pruned");
    reveal_strlit("rolling");
    assert("archive"@ =~= seq!['a', 'r', 'c', 'h', 'i', 'v', 'e']);
    assert("full"@ =~= seq!['f', 'u', 'l', 'l']);
    assert("light"@ =~= seq!['l', 'i', 'g', 'h', 't']);
    assert("pruned"@ =~= seq!['p', 'r', 'u', 'n', 'e', 'd']);
    assert("rolling"@ =~= seq!['r', 'o', 'l', 'l', 'i', 'n', 'g']);
    assert("archive"@[0] == 'a' && "full"@[0] == 'f' && "light"@[0] == 'l' && "pruned"@[0] == 'p'
        && "rolling"@[0] == 'r');
}

/// An archive keeps every body, witness and state root and replaces no proof, a full node keeps every
/// body and state root and the witnesses of 128 heights, and a light node keeps the bodies and state
/// roots of 4096 heights and the witnesses of 64.
pub proof fn law_what_profiles_keep(profile: StorageProfile, body: u64, witness: u64, keep: u64)
    ensures
        ({
            let own = profile.config(None, None, None);
            &&& profile == StorageProfile::Archive ==> own.body_retention == 0
                && own.witness_retention == 0 && own.keep_recent == 0
                && own.proof_replacement_grace == 0xffff_ffff_ffff_ffff
            &&& profile == StorageProfile::Full ==> own.body_retention == 0
                && own.witness_retention == 128 && own.keep_recent == 0
                && own.proof_replacement_grace == 0
            &&& profile == StorageProfile::Light ==> own.body_retention == 4096
                && own.witness_retention == 64 && own.keep_recent == 4096
                && own.proof_replacement_grace == 0
            &&& !own.state_pruning_experimental
            &&& profile.config(Some(body), None, None) == (PruningConfig {
                body_retention: body,
                ..own
            })
            &&& profile.config(None, Some(witness), None) == (PruningConfig {
                witness_retention: witness,
                ..own
            })
            &&& profile.config(None, None, Some(keep)) == (PruningConfig {
                keep_recent: keep,
                ..own
            })
            &&& profile.config(Some(body), Some(witness), Some(keep)) == (PruningConfig {
                body_retention: body,
                witness_retention: witness,
                keep_recent: keep,
                ..own
            })
        }),
{
}

/// A configuration is that of an archive exactly if it keeps all bodies and witnesses and never
/// replaces a proof, of a full node exactly if it keeps all bodies and drops witnesses, and else of a
/// light node. How many state roots it keeps plays no part.
pub proof fn law_profiles_of_configurations(cfg: PruningConfig, keep: u64)
    ensures
        StorageProfile::of_config(cfg) == StorageProfile::Archive <==> cfg.body_retention == 0
            && cfg.witness_retention == 0 && cfg.proof_replacement_grace == 0xffff_ffff_ffff_ffff,
        StorageProfile::of_config(cfg) == StorageProfile::Full <==> cfg.body_retention == 0
            && cfg.witness_retention > 0,
        StorageProfile::of_config(cfg) == StorageProfile::Light <==> cfg.body_retention > 0 || (
        cfg.witness_retention == 0 && cfg.proof_replacement_grace < 0xffff_ffff_ffff_ffff),
        StorageProfile::of_config(PruningConfig { keep_recent: keep, ..cfg })
            == StorageProfile::of_config(cfg),
{
}

/// A tracker holds as many state roots as are to be kept, and an archive ten thousand.
pub proof fn law_how_many_roots_are_kept(config: PruningConfig)
    ensures
        config.keep_recent > 0 ==> config.tracked_limit() == config.keep_recent,
        config.keep_recent == 0 ==> config.tracked_limit() == 10_000,
{
}

/// The small letter of a capital lies as far behind `a` as the capital behind `A`, and anything else
/// stays as it is; a text keeps its length.
pub proof fn law_small_letters(c: char, text: Seq<char>, i: int)
    requires
        0 <= i < text.len(),
    ensures
        'A' <= c <= 'Z' ==> 'a' <= ascii_lower(c) <= 'z' && ascii_lower(c) as u32 - 'a' as u32
            == c as u32 - 'A' as u32,
        !('A' <= c <= 'Z') ==> ascii_lower(c) == c,
        ascii_lowered(text).len() == text.len(),
        ascii_lowered(text)[i] == ascii_lower(text[i]),
{
}

/// A recorded state root is the latest, the others keep their order, and the oldest one leaves exactly
/// if there would be more than are to be kept; it is handed out then.
pub proof fn law_recording_a_root(
    tracker: &mut StateRootTracker,
    block_number: u64,
    state_root: ShellHash,
    evicted: Option<StateRootEntry>,
    i: int,
)
    requires
        call_ensures(StateRootTracker::record, (tracker, block_number, state_root), evicted),
        old(tracker).bounded(),
        old(tracker).settings().tracked_limit() > 0,
    ensures
        ({
            let before = old(tracker)@;
            let after = final(tracker)@;
            let limit = old(tracker).settings().tracked_limit();
            let full = before.len() == limit;
            let gone: int = if full {
                1
            } else {
                0
            };
            &&& after.len() == before.len() + 1 - gone
            &&& after.len() <= limit
            &&& after[after.len() - 1] == (StateRootEntry { block_number, state_root })
            &&& 0 <= i < after.len() - 1 ==> after[i] == before[i + gone]
            &&& evicted is Some <==> full
            &&& evicted matches Some(entry) ==> entry == before[0]
            &&& final(tracker).settings() == old(tracker).settings()
        }),
{
}

/// The text of a profile's name, in small letters or capitals, gives the profile.
pub proof fn law_names_are_read_in_any_case(
    name: &str,
    parsed: Result<StorageProfile, String>,
)
    requires
        call_ensures(StorageProfile::from_str, (name,), parsed),
        is_ascii_text(name@),
    ensures
        parsed is Ok <==> named_profile(ascii_lowered(name@)) is Some,
        parsed matches Ok(profile) ==> named_profile(ascii_lowered(name@)) == Some(profile),
{
}

} // verus!
