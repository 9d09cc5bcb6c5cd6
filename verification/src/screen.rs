//! The screen flow of the game: title menu, story, map intro, play, level-up
//! card, pause and end screen. Each frame the shell hands in the keys that
//! were pressed; the flow decides the next screen and returns, in order, the
//! actions the shell has to carry out (sounds, music, starting or dropping a
//! run, opening the level-up card, recording the result).

use vstd::prelude::*;

verus! {

/// The synthesized sound effects.
#[derive(Clone, Copy, Debug, PartialEq, Eq, Hash, Structural)]
pub enum Sfx {
    Shoot,
    Hit,
    Kill,
    Explosion,
    Hurt,
    Gem,
    LevelUp,
    Pickup,
    Boss,
    Dash,
    UiMove,
    UiSelect,
    Win,
    Lose,
}

/// The screens of the game.
#[derive(Clone, Copy, Debug, PartialEq, Eq, Structural)]
pub enum Screen {
    Title,
    Story,
    MapIntro,
    Playing,
    LevelUp,
    Paused,
    /// Game over or victory.
    End,
}

/// The keys pressed during one frame. Letters match either case.
#[derive(Clone, Copy, Debug, PartialEq, Eq, Structural)]
pub struct Keys {
    pub up: bool,
    pub down: bool,
    pub left: bool,
    pub right: bool,
    pub enter: bool,
    pub esc: bool,
    pub space: bool,
    /// `q`
    pub quit: bool,
    /// `l`
    pub story: bool,
    /// `p`
    pub pause: bool,
    /// `m`
    pub mute: bool,
    /// `1`
    pub one: bool,
    /// `2`
    pub two: bool,
    /// `3`
    pub three: bool,
}

/// What the shell has to do, in the order given.
#[derive(Clone, Copy, Debug, PartialEq, Eq, Structural)]
pub enum Action {
    /// Flip the audio mute.
    ToggleMute,
    /// Play a sound effect.
    Play(Sfx),
    /// Play the calm menu music of the selected theme.
    MenuMusic,
    /// Start a new run on the selected theme (its map intro shows).
    StartRun,
    /// Leave the program.
    Quit,
    /// Advance the running world by one frame, then call `after_world`.
    Advance,
    /// Throw the current run away.
    DropWorld,
    /// Draw new upgrade choices and call `open_levelup` with their number.
    OpenLevelUp,
    /// Apply upgrade choice `i`, then call `after_pick`.
    Pick(usize),
    /// Set the music intensity.
    Intensity(u32),
    /// Score the finished run, record it, settle the music and play the
    /// ending sting.
    Finalize,
}

/// Entries of the title menu: start, story hint, quit.
pub open spec fn menu_len() -> int {
    3
}

/// Number of themes to choose from.
pub open spec fn theme_count() -> int {
    3
}

/// Step `i` one place back in a cycle of `n` places, wrapping from the
/// first place to the last.
pub open spec fn cycle_back(i: int, n: int) -> int {
    if i == 0 { n - 1 } else { i - 1 }
}

/// Step `i` one place on in a cycle of `n` places, wrapping from the last
/// place to the first.
pub open spec fn cycle_on(i: int, n: int) -> int {
    if i + 1 >= n { 0 } else { i + 1 }
}

/// The menu entry after the up and down keys of a frame (up first).
pub open spec fn menu_after(idx: int, k: Keys) -> int {
    let a = if k.up { cycle_back(idx, menu_len()) } else { idx };
    if k.down { cycle_on(a, menu_len()) } else { a }
}

/// The theme after the left and right keys of a frame (left first).
pub open spec fn theme_after(t: int, k: Keys) -> int {
    let a = if k.left { cycle_back(t, theme_count()) } else { t };
    if k.right { cycle_on(a, theme_count()) } else { a }
}

/// `s` if `b`, else nothing.
pub open spec fn when(b: bool, s: Seq<Action>) -> Seq<Action> {
    if b { s } else { Seq::empty() }
}

/// The sounds and music changes of the title menu's arrow keys, in the
/// order up, down, left, right.
pub open spec fn title_moves(k: Keys) -> Seq<Action> {
    when(k.up, seq![Action::Play(Sfx::UiMove)]) + when(k.down, seq![Action::Play(Sfx::UiMove)]) + when(
        k.left,
        seq![Action::MenuMusic, Action::Play(Sfx::UiMove)],
    ) + when(k.right, seq![Action::MenuMusic, Action::Play(Sfx::UiMove)])
}

/// What enter does on title entry `m`: start a run on the first entry,
/// quit on the last.
pub open spec fn title_enter(m: int, k: Keys) -> Seq<Action> {
    if k.enter && m == 0 {
        seq![Action::Play(Sfx::UiSelect), Action::StartRun]
    } else if k.enter && m == 2 {
        seq![Action::Quit]
    } else {
        Seq::empty()
    }
}

/// The actions of a title-screen frame after the mute toggle.
pub open spec fn title_actions(idx: int, k: Keys) -> Seq<Action> {
    if k.quit {
        seq![Action::Quit]
    } else if k.story {
        seq![Action::Play(Sfx::UiSelect)]
    } else {
        title_moves(k) + title_enter(menu_after(idx, k), k)
    }
}

/// The level-up entry after the keys of a frame, over `n` entries.
pub open spec fn levelup_after(idx: int, n: int, k: Keys) -> int {
    let a = if k.up || k.left { cycle_back(idx, n) } else { idx };
    if k.down || k.right { cycle_on(a, n) } else { a }
}

/// The choice picked on the level-up card: the highest number key that names
/// an offered choice, overridden by enter on the highlighted entry.
pub open spec fn levelup_pick(sel: int, len: int, k: Keys) -> Option<usize> {
    if k.enter {
        Some(sel as usize)
    } else if k.three && 2 < len {
        Some(2usize)
    } else if k.two && 1 < len {
        Some(1usize)
    } else if k.one && 0 < len {
        Some(0usize)
    } else {
        None
    }
}

/// The sounds of the level-up card's arrow keys.
pub open spec fn levelup_moves(k: Keys) -> Seq<Action> {
    when(k.up || k.left, seq![Action::Play(Sfx::UiMove)]) + when(k.down || k.right, seq![Action::Play(Sfx::UiMove)])
}

/// Confirming a pick: a sound, then the pick.
pub open spec fn pick_actions(p: Option<usize>) -> Seq<Action> {
    match p {
        Some(i) => seq![Action::Play(Sfx::UiSelect), Action::Pick(i)],
        None => Seq::empty(),
    }
}

/// The actions of a level-up frame after the mute toggle.
pub open spec fn levelup_actions(f: Flow, k: Keys) -> Seq<Action> {
    let n = if f.levelup_len == 0 { 1 } else { f.levelup_len as int };
    levelup_moves(k) + pick_actions(levelup_pick(levelup_after(f.levelup_idx as int, n, k), f.levelup_len as int, k))
}

/// The first occurrence of each sound in `s`, in order.
pub open spec fn first_occurrences(s: Seq<Sfx>) -> Seq<Sfx>
    decreases s.len(),
{
    if s.len() == 0 {
        Seq::empty()
    } else {
        let prev = first_occurrences(s.drop_last());
        if prev.contains(s.last()) {
            prev
        } else {
            prev.push(s.last())
        }
    }
}

/// Each sound as an action.
pub open spec fn plays(s: Seq<Sfx>) -> Seq<Action> {
    s.map_values(|x: Sfx| Action::Play(x))
}

/// The title menu entry after a frame's up and down keys.
fn step_menu(idx: usize, k: Keys) -> (r: usize)
    requires
        idx < menu_len(),
    ensures
        r == menu_after(idx as int, k),
        r < menu_len(),
{
    let mut m = idx;
    if k.up {
        m = (m + 2) % 3;
    }
    if k.down {
        m = (m + 1) % 3;
    }
    m
}

/// The theme after a frame's left and right keys.
fn step_theme(t: usize, k: Keys) -> (r: usize)
    requires
        t < theme_count(),
    ensures
        r == theme_after(t as int, k),
        r < theme_count(),
{
    let n: usize = 3;
    let mut a = t;
    if k.left {
        a = (a + n - 1) % n;
    }
    if k.right {
        a = (a + 1) % n;
    }
    a
}

/// The sounds and music changes of the title menu's arrow keys.
fn push_title_moves(k: Keys, acts: &mut Vec<Action>)
    ensures
        final(acts)@ == old(acts)@ + title_moves(k),
{
    let ghost a0 = acts@;
    if k.up {
        acts.push(Action::Play(Sfx::UiMove));
    }
    let ghost a1 = acts@;
    if k.down {
        acts.push(Action::Play(Sfx::UiMove));
    }
    let ghost a2 = acts@;
    if k.left {
        acts.push(Action::MenuMusic);
        acts.push(Action::Play(Sfx::UiMove));
    }
    let ghost a3 = acts@;
    if k.right {
        acts.push(Action::MenuMusic);
        acts.push(Action::Play(Sfx::UiMove));
    }
    proof {
        assert(a1 =~= a0 + when(k.up, seq![Action::Play(Sfx::UiMove)]));
        assert(a2 =~= a1 + when(k.down, seq![Action::Play(Sfx::UiMove)]));
        assert(a3 =~= a2 + when(k.left, seq![Action::MenuMusic, Action::Play(Sfx::UiMove)]));
        assert(acts@ =~= a3 + when(k.right, seq![Action::MenuMusic, Action::Play(Sfx::UiMove)]));
        assert(acts@ =~= a0 + title_moves(k));
    }
}

/// The highlighted level-up entry after a frame's arrow keys, over `n`
/// entries.
fn step_levelup(idx: usize, n: usize, k: Keys) -> (r: usize)
    requires
        idx < n,
    ensures
        r == levelup_after(idx as int, n as int, k),
        r < n,
{
    let mut a = idx;
    if k.up || k.left {
        a = if a == 0 { n - 1 } else { a - 1 };
    }
    if k.down || k.right {
        a = if a + 1 == n { 0 } else { a + 1 };
    }
    a
}

/// The choice picked on the level-up card, if any.
fn pick_choice(sel: usize, len: usize, k: Keys) -> (r: Option<usize>)
    ensures
        r == levelup_pick(sel as int, len as int, k),
{
    let mut pick: Option<usize> = None;
    if k.one && 0 < len {
        pick = Some(0);
    }
    if k.two && 1 < len {
        pick = Some(1);
    }
    if k.three && 2 < len {
        pick = Some(2);
    }
    if k.enter {
        pick = Some(sel);
    }
    pick
}

/// The sounds of the level-up card's arrow keys.
fn push_levelup_moves(k: Keys, acts: &mut Vec<Action>)
    ensures
        final(acts)@ == old(acts)@ + levelup_moves(k),
{
    let ghost a0 = acts@;
    if k.up || k.left {
        acts.push(Action::Play(Sfx::UiMove));
    }
    let ghost a1 = acts@;
    if k.down || k.right {
        acts.push(Action::Play(Sfx::UiMove));
    }
    proof {
        assert(a1 =~= a0 + when(k.up || k.left, seq![Action::Play(Sfx::UiMove)]));
        assert(acts@ =~= a1 + when(k.down || k.right, seq![Action::Play(Sfx::UiMove)]));
        assert(acts@ =~= a0 + levelup_moves(k));
    }
}

/// Confirming a pick, if there is one.
fn push_pick(p: Option<usize>, acts: &mut Vec<Action>)
    ensures
        final(acts)@ == old(acts)@ + pick_actions(p),
{
    let ghost a0 = acts@;
    match p {
        Some(i) => {
            acts.push(Action::Play(Sfx::UiSelect));
            acts.push(Action::Pick(i));
        },
        None => {},
    }
    proof {
        assert(acts@ =~= a0 + pick_actions(p));
    }
}

/// The state after a title-screen frame.
pub open spec fn title_next(f: Flow, k: Keys) -> Flow {
    if k.quit {
        f
    } else if k.story {
        Flow { screen: Screen::Story, ..f }
    } else {
        let m = menu_after(f.menu_idx as int, k);
        let t = theme_after(f.theme_idx as int, k);
        let started = k.enter && m == 0;
        Flow {
            screen: if started { Screen::MapIntro } else { Screen::Title },
            menu_idx: m as usize,
            theme_idx: t as usize,
            recorded: if started { false } else { f.recorded },
            ..f
        }
    }
}

/// The screen state of the game.
pub struct Flow {
    pub screen: Screen,
    /// Highlighted title-menu entry.
    pub menu_idx: usize,
    /// Selected theme, an index into `Theme::all()`.
    pub theme_idx: usize,
    /// Highlighted level-up choice.
    pub levelup_idx: usize,
    /// Number of level-up choices on offer.
    pub levelup_len: usize,
    /// The finished run has been scored.
    pub recorded: bool,
}

impl Flow {
    /// The indices address their lists.
    pub open spec fn wf(&self) -> bool {
        &&& self.menu_idx < menu_len()
        &&& self.theme_idx < theme_count()
        &&& self.levelup_idx < (if self.levelup_len == 0 { 1 } else { self.levelup_len as int })
    }

    /// The title screen, first entry and first theme highlighted.
    pub fn new() -> (f: Flow)
        ensures
            f.wf(),
            f == (Flow {
                screen: Screen::Title,
                menu_idx: 0,
                theme_idx: 0,
                levelup_idx: 0,
                levelup_len: 0,
                recorded: false,
            }),
    {
        Flow { screen: Screen::Title, menu_idx: 0, theme_idx: 0, levelup_idx: 0, levelup_len: 0, recorded: false }
    }

    /// Handle the keys of one frame. `intro_over` tells whether the map
    /// intro has run its time out.
    pub fn handle_keys(&mut self, k: Keys, intro_over: bool) -> (acts: Vec<Action>)
        requires
            old(self).wf(),
        ensures
            final(self).wf(),
            acts@ == when(k.mute, seq![Action::ToggleMute]) + Flow::screen_actions(*old(self), k, intro_over),
            *final(self) == Flow::spec_next(*old(self), k, intro_over),
    {
        let mut acts: Vec<Action> = Vec::new();
        if k.mute {
            acts.push(Action::ToggleMute);
        }
        let ghost start = acts@;
        match self.screen {
            Screen::Title => self.title(k, &mut acts),
            Screen::Story => {
                if k.enter || k.esc || k.quit {
                    acts.push(Action::Play(Sfx::UiSelect));
                    self.screen = Screen::Title;
                }
            },
            Screen::MapIntro => {
                if intro_over || k.enter || k.space {
                    self.screen = Screen::Playing;
                }
            },
            Screen::Playing => {
                if k.esc || k.pause {
                    self.screen = Screen::Paused;
                } else {
                    acts.push(Action::Advance);
                }
            },
            Screen::LevelUp => self.levelup(k, &mut acts),
            Screen::Paused => {
                if k.esc || k.pause {
                    self.screen = Screen::Playing;
                }
                if k.quit {
                    acts.push(Action::DropWorld);
                    self.screen = Screen::Title;
                    acts.push(Action::MenuMusic);
                }
            },
            Screen::End => {
                if k.enter {
                    self.start_run(&mut acts);
                }
                if k.quit {
                    acts.push(Action::DropWorld);
                    self.screen = Screen::Title;
                    acts.push(Action::MenuMusic);
                }
            },
        }
        proof {
            assert(acts@ == start + Flow::screen_actions(*old(self), k, intro_over));
        }
        acts
    }

    /// The actions of a frame on the current screen, after the mute toggle.
    pub open spec fn screen_actions(f: Flow, k: Keys, intro_over: bool) -> Seq<Action> {
        match f.screen {
            Screen::Title => title_actions(f.menu_idx as int, k),
            Screen::Story => when(k.enter || k.esc || k.quit, seq![Action::Play(Sfx::UiSelect)]),
            Screen::MapIntro => Seq::empty(),
            Screen::Playing => when(!(k.esc || k.pause), seq![Action::Advance]),
            Screen::LevelUp => levelup_actions(f, k),
            Screen::Paused => when(k.quit, seq![Action::DropWorld, Action::MenuMusic]),
            Screen::End => when(k.enter, seq![Action::StartRun]) + when(
                k.quit,
                seq![Action::DropWorld, Action::MenuMusic],
            ),
        }
    }

    /// The state after a frame's keys.
    pub open spec fn spec_next(f: Flow, k: Keys, intro_over: bool) -> Flow {
        match f.screen {
            Screen::Title => title_next(f, k),
            Screen::Story => if k.enter || k.esc || k.quit { Flow { screen: Screen::Title, ..f } } else { f },
            Screen::MapIntro => if intro_over || k.enter || k.space {
                Flow { screen: Screen::Playing, ..f }
            } else {
                f
            },
            Screen::Playing => if k.esc || k.pause { Flow { screen: Screen::Paused, ..f } } else { f },
            Screen::LevelUp => {
                let n = if f.levelup_len == 0 { 1 } else { f.levelup_len as int };
                Flow { levelup_idx: levelup_after(f.levelup_idx as int, n, k) as usize, ..f }
            },
            Screen::Paused => if k.quit {
                Flow { screen: Screen::Title, ..f }
            } else if k.esc || k.pause {
                Flow { screen: Screen::Playing, ..f }
            } else {
                f
            },
            Screen::End => if k.quit {
                Flow { screen: Screen::Title, recorded: if k.enter { false } else { f.recorded }, ..f }
            } else if k.enter {
                Flow { screen: Screen::MapIntro, recorded: false, ..f }
            } else {
                f
            },
        }
    }

    fn start_run(&mut self, acts: &mut Vec<Action>)
        ensures
            *final(self) == (Flow { screen: Screen::MapIntro, recorded: false, ..*old(self) }),
            final(acts)@ == old(acts)@.push(Action::StartRun),
    {
        self.recorded = false;
        self.screen = Screen::MapIntro;
        acts.push(Action::StartRun);
    }

    fn title(&mut self, k: Keys, acts: &mut Vec<Action>)
        requires
            old(self).wf(),
            old(self).screen == Screen::Title,
        ensures
            final(self).wf(),
            *final(self) == title_next(*old(self), k),
            final(acts)@ == old(acts)@ + title_actions(old(self).menu_idx as int, k),
    {
        if k.quit {
            acts.push(Action::Quit);
            return;
        }
        if k.story {
            acts.push(Action::Play(Sfx::UiSelect));
            self.screen = Screen::Story;
            return;
        }
        let ghost a0 = acts@;
        let m = step_menu(self.menu_idx, k);
        self.menu_idx = m;
        self.theme_idx = step_theme(self.theme_idx, k);
        push_title_moves(k, acts);
        let ghost a1 = acts@;
        if k.enter {
            if m == 0 {
                acts.push(Action::Play(Sfx::UiSelect));
                self.start_run(acts);
            } else if m == 2 {
                acts.push(Action::Quit);
            }
        }
        proof {
            assert(acts@ =~= a1 + title_enter(m as int, k));
            assert(acts@ =~= a0 + (title_moves(k) + title_enter(m as int, k)));
        }
    }

    fn levelup(&mut self, k: Keys, acts: &mut Vec<Action>)
        requires
            old(self).wf(),
            old(self).screen == Screen::LevelUp,
        ensures
            final(self).wf(),
            *final(self) == Flow::spec_next(*old(self), k, false),
            final(acts)@ == old(acts)@ + levelup_actions(*old(self), k),
    {
        let ghost a0 = acts@;
        let n: usize = if self.levelup_len == 0 { 1 } else { self.levelup_len };
        let sel = step_levelup(self.levelup_idx, n, k);
        self.levelup_idx = sel;
        push_levelup_moves(k, acts);
        let ghost a1 = acts@;
        let pick = pick_choice(sel, self.levelup_len, k);
        push_pick(pick, acts);
        proof {
            assert(acts@ =~= a0 + (levelup_moves(k) + pick_actions(pick)));
        }
    }

    /// After the world has advanced a frame: the frame's sounds, each once,
    /// in the order first heard; the music intensity (2 with a boss alive or
    /// more than 45 enemies, else 1); then the level-up card when level-ups
    /// are pending, or else the end screen when the run is over (scored only
    /// the first time).
    pub fn after_world(&mut self, events: &Vec<Sfx>, boss_alive: bool, enemies: usize, pending: u32, finished: bool) -> (acts: Vec<Action>)
        requires
            old(self).wf(),
            old(self).screen == Screen::Playing,
        ensures
            final(self).wf(),
            acts@ == plays(first_occurrences(events@)) + seq![Action::Intensity(if boss_alive || enemies > 45 { 2 } else { 1 })]
                + (if pending > 0 {
                seq![Action::OpenLevelUp]
            } else {
                when(finished && !old(self).recorded, seq![Action::Finalize])
            }),
            *final(self) == (if pending == 0 && finished {
                Flow { screen: Screen::End, recorded: true, ..*old(self) }
            } else {
                *old(self)
            }),
    {
        let sounds = dedup(events);
        let mut acts: Vec<Action> = Vec::new();
        let mut i: usize = 0;
        while i < sounds.len()
            invariant
                i <= sounds@.len(),
                acts@ == plays(sounds@.subrange(0, i as int)),
            decreases sounds.len() - i,
        {
            acts.push(Action::Play(sounds[i]));
            proof {
                assert(sounds@.subrange(0, i + 1) == sounds@.subrange(0, i as int).push(sounds@[i as int]));
            }
            i = i + 1;
        }
        proof {
            assert(sounds@.subrange(0, sounds@.len() as int) == sounds@);
        }
        let intensity: u32 = if boss_alive || enemies > 45 { 2 } else { 1 };
        acts.push(Action::Intensity(intensity));
        if pending > 0 {
            acts.push(Action::OpenLevelUp);
        } else if finished {
            if !self.recorded {
                acts.push(Action::Finalize);
            }
            self.recorded = true;
            self.screen = Screen::End;
        }
        acts
    }

    /// The upgrade choices are drawn: show the card with `n` of them, the
    /// first highlighted.
    pub fn open_levelup(&mut self, n: usize)
        requires
            old(self).wf(),
        ensures
            final(self).wf(),
            *final(self) == (Flow { screen: Screen::LevelUp, levelup_idx: 0, levelup_len: n, ..*old(self) }),
    {
        self.levelup_len = n;
        self.levelup_idx = 0;
        self.screen = Screen::LevelUp;
    }

    /// After a pick: one pending level-up fewer when an upgrade was applied;
    /// while some remain the card opens again, else play resumes. Returns
    /// the level-ups still pending.
    pub fn after_pick(&mut self, applied: bool, pending: u32) -> (r: (u32, Vec<Action>))
        requires
            old(self).wf(),
        ensures
            final(self).wf(),
            r.0 == (if applied && pending > 0 { pending - 1 } else { pending as int }),
            r.1@ == when(r.0 > 0, seq![Action::OpenLevelUp]),
            *final(self) == (if r.0 > 0 { *old(self) } else { Flow { screen: Screen::Playing, ..*old(self) } }),
    {
        let left = if applied { pending.saturating_sub(1) } else { pending };
        let mut acts: Vec<Action> = Vec::new();
        if left > 0 {
            acts.push(Action::OpenLevelUp);
        } else {
            self.screen = Screen::Playing;
        }
        (left, acts)
    }
}

/// The first occurrence of each sound in `events`, in order.
pub fn dedup(events: &Vec<Sfx>) -> (r: Vec<Sfx>)
    ensures
        r@ == first_occurrences(events@),
{
    let mut r: Vec<Sfx> = Vec::new();
    let mut i: usize = 0;
    while i < events.len()
        invariant
            i <= events@.len(),
            r@ == first_occurrences(events@.subrange(0, i as int)),
        decreases events.len() - i,
    {
        let e = events[i];
        let mut seen = false;
        let mut j: usize = 0;
        while j < r.len()
            invariant
                j <= r@.len(),
                seen <==> exists|t: int| 0 <= t < j && r@[t] == e,
            decreases r.len() - j,
        {
            if r[j] == e {
                seen = true;
            }
            j = j + 1;
        }
        proof {
            let s = events@.subrange(0, i + 1);
            assert(s.drop_last() == events@.subrange(0, i as int));
            assert(s.last() == e);
            assert(seen <==> r@.contains(e));
        }
        if !seen {
            r.push(e);
        }
        i = i + 1;
    }
    proof {
        assert(events@.subrange(0, events@.len() as int) == events@);
    }
    r
}

/// The score of a finished run: its points, plus 5 per whole second
/// survived, 100 per player level, and 5000 for a win.
pub open spec fn spec_final_score(score: int, seconds: int, level: int, won: bool) -> int {
    score + seconds * 5 + level * 100 + if won { 5000int } else { 0int }
}

/// The score of a finished run: its points, plus 5 per whole second
/// survived, 100 per player level, and 5000 for a win.
pub fn final_score(score: u32, seconds: u32, level: u32, won: bool) -> (r: u32)
    requires
        spec_final_score(score as int, seconds as int, level as int, won) <= u32::MAX,
        seconds * 5 <= u32::MAX,
        level * 100 <= u32::MAX,
    ensures
        r == spec_final_score(score as int, seconds as int, level as int, won),
{
    let bonus_time = seconds * 5;
    let bonus_level = level * 100;
    let bonus_win: u32 = if won { 5000 } else { 0 };
    score + bonus_time + bonus_level + bonus_win
}

/// The pause key (or Esc) toggles between play and pause both ways when quit
/// is not pressed, changing nothing else: two such frames come back to the
/// starting state.
pub proof fn lemma_pause_toggles(f: Flow, k: Keys, intro_over: bool)
    requires
        k.pause || k.esc,
        !k.quit,
    ensures
        f.screen == Screen::Playing ==> Flow::spec_next(f, k, intro_over) == (Flow { screen: Screen::Paused, ..f }),
        f.screen == Screen::Paused ==> Flow::spec_next(f, k, intro_over) == (Flow { screen: Screen::Playing, ..f }),
        f.screen == Screen::Playing || f.screen == Screen::Paused ==> Flow::spec_next(
            Flow::spec_next(f, k, intro_over),
            k,
            intro_over,
        ) == f,
{
}

/// How the final score is made up: every point of the run counts once,
/// every further second survived adds 5, every further level 100, a win
/// 5000, and an empty lost run scores nothing.
pub proof fn lemma_final_score_parts(score: int, seconds: int, level: int, won: bool)
    ensures
        spec_final_score(score + 1, seconds, level, won) == spec_final_score(score, seconds, level, won) + 1,
        spec_final_score(score, seconds + 1, level, won) == spec_final_score(score, seconds, level, won) + 5,
        spec_final_score(score, seconds, level + 1, won) == spec_final_score(score, seconds, level, won) + 100,
        spec_final_score(score, seconds, level, true) == spec_final_score(score, seconds, level, false) + 5000,
        spec_final_score(0, 0, 0, false) == 0,
{
}

/// Moving up then down on the title menu, in two frames, comes back to the
/// same entry; likewise left then right for the theme.
pub proof fn lemma_menu_round_trip(idx: int, t: int, up: Keys, down: Keys)
    requires
        0 <= idx < menu_len(),
        0 <= t < theme_count(),
        up.up && !up.down && up.left && !up.right,
        down.down && !down.up && down.right && !down.left,
    ensures
        menu_after(menu_after(idx, up), down) == idx,
        theme_after(theme_after(t, up), down) == t,
{
}

/// Three presses in one direction walk the whole theme cycle back to the
/// start, and every step stays within the list.
pub proof fn lemma_theme_cycle(t: int, k: Keys)
    requires
        0 <= t < theme_count(),
        k.right && !k.left,
    ensures
        theme_after(theme_after(theme_after(t, k), k), k) == t,
        0 <= theme_after(t, k) < theme_count(),
{
}

/// A non-empty sequence holds `x` exactly when its front part or its last
/// element does.
proof fn lemma_contains_last<A>(s: Seq<A>, x: A)
    requires
        s.len() > 0,
    ensures
        s.contains(x) <==> (s.drop_last().contains(x) || s.last() == x),
{
    if s.contains(x) && s.last() != x {
        let i = choose|i: int| 0 <= i < s.len() && s[i] == x;
        assert(s.drop_last()[i] == x);
    }
    if s.drop_last().contains(x) {
        let i = choose|i: int| 0 <= i < s.drop_last().len() && s.drop_last()[i] == x;
        assert(s[i] == x);
    }
    if s.last() == x {
        assert(s[s.len() - 1] == x);
    }
}

/// Each sound is heard once per frame, and every sound of the frame is
/// heard.
pub proof fn lemma_first_occurrences(s: Seq<Sfx>)
    ensures
        first_occurrences(s).no_duplicates(),
        forall|x: Sfx| #[trigger] first_occurrences(s).contains(x) <==> s.contains(x),
    decreases s.len(),
{
    if s.len() > 0 {
        lemma_first_occurrences(s.drop_last());
        let prev = first_occurrences(s.drop_last());
        let cur = first_occurrences(s);
        assert forall|x: Sfx| #[trigger] cur.contains(x) <==> s.contains(x) by {
            lemma_contains_last(s, x);
            if !prev.contains(s.last()) {
                assert(cur == prev.push(s.last()));
                assert(cur.drop_last() == prev);
                lemma_contains_last(cur, x);
            }
        }
        if !prev.contains(s.last()) {
            assert forall|i: int, j: int| 0 <= i < cur.len() && 0 <= j < cur.len() && i != j implies cur[i] != cur[j] by {
                if i == cur.len() - 1 {
                    assert(cur[j] == prev[j]);
                } else if j == cur.len() - 1 {
                    assert(cur[i] == prev[i]);
                } else {
                    assert(cur[i] == prev[i] && cur[j] == prev[j]);
                }
            }
        }
    }
}

} // verus!
