use ratrun::screen::{dedup, final_score, Action, Flow, Keys, Screen, Sfx};

fn none() -> Keys {
    Keys {
        up: false,
        down: false,
        left: false,
        right: false,
        enter: false,
        esc: false,
        space: false,
        quit: false,
        story: false,
        pause: false,
        mute: false,
        one: false,
        two: false,
        three: false,
    }
}

#[test]
fn quit_from_title() {
    let mut f = Flow::new();
    assert_eq!(f.handle_keys(none(), false), vec![]);
    let acts = f.handle_keys(Keys { quit: true, ..none() }, false);
    assert_eq!(acts, vec![Action::Quit]);
    assert_eq!(f.screen, Screen::Title);
}

#[test]
fn title_menu_wraps_both_ways() {
    let mut f = Flow::new();
    let acts = f.handle_keys(Keys { up: true, ..none() }, false);
    assert_eq!(f.menu_idx, 2);
    assert_eq!(acts, vec![Action::Play(Sfx::UiMove)]);
    f.handle_keys(Keys { down: true, ..none() }, false);
    assert_eq!(f.menu_idx, 0);
    f.handle_keys(Keys { down: true, ..none() }, false);
    assert_eq!(f.menu_idx, 1);
}

#[test]
fn theme_cycles_and_changes_music() {
    let mut f = Flow::new();
    let acts = f.handle_keys(Keys { left: true, ..none() }, false);
    assert_eq!(f.theme_idx, 2);
    assert_eq!(acts, vec![Action::MenuMusic, Action::Play(Sfx::UiMove)]);
    for _ in 0..3 {
        f.handle_keys(Keys { right: true, ..none() }, false);
    }
    assert_eq!(f.theme_idx, 2);
}

#[test]
fn enter_on_start_begins_a_run() {
    let mut f = Flow::new();
    let acts = f.handle_keys(Keys { enter: true, ..none() }, false);
    assert_eq!(acts, vec![Action::Play(Sfx::UiSelect), Action::StartRun]);
    assert_eq!(f.screen, Screen::MapIntro);
    // The intro ends on its timer or on enter / space.
    assert_eq!(f.handle_keys(none(), false), vec![]);
    assert_eq!(f.screen, Screen::MapIntro);
    f.handle_keys(none(), true);
    assert_eq!(f.screen, Screen::Playing);
}

#[test]
fn enter_on_quit_entry_quits() {
    let mut f = Flow::new();
    f.handle_keys(Keys { up: true, ..none() }, false);
    let acts = f.handle_keys(Keys { enter: true, ..none() }, false);
    assert_eq!(acts, vec![Action::Quit]);
}

#[test]
fn story_screen_round_trip() {
    let mut f = Flow::new();
    let acts = f.handle_keys(Keys { story: true, ..none() }, false);
    assert_eq!(acts, vec![Action::Play(Sfx::UiSelect)]);
    assert_eq!(f.screen, Screen::Story);
    f.handle_keys(Keys { esc: true, ..none() }, false);
    assert_eq!(f.screen, Screen::Title);
}

#[test]
fn mute_comes_first() {
    let mut f = Flow::new();
    let acts = f.handle_keys(Keys { mute: true, down: true, ..none() }, false);
    assert_eq!(acts, vec![Action::ToggleMute, Action::Play(Sfx::UiMove)]);
}

fn playing() -> Flow {
    let mut f = Flow::new();
    f.handle_keys(Keys { enter: true, ..none() }, false);
    f.handle_keys(Keys { space: true, ..none() }, false);
    assert_eq!(f.screen, Screen::Playing);
    f
}

#[test]
fn pause_and_resume() {
    let mut f = playing();
    assert_eq!(f.handle_keys(none(), false), vec![Action::Advance]);
    assert_eq!(f.handle_keys(Keys { pause: true, ..none() }, false), vec![]);
    assert_eq!(f.screen, Screen::Paused);
    f.handle_keys(Keys { esc: true, ..none() }, false);
    assert_eq!(f.screen, Screen::Playing);
    f.handle_keys(Keys { esc: true, ..none() }, false);
    let acts = f.handle_keys(Keys { quit: true, ..none() }, false);
    assert_eq!(acts, vec![Action::DropWorld, Action::MenuMusic]);
    assert_eq!(f.screen, Screen::Title);
}

#[test]
fn frame_sounds_are_heard_once_each() {
    let mut f = playing();
    let events = vec![Sfx::Shoot, Sfx::Hit, Sfx::Shoot, Sfx::Kill, Sfx::Hit];
    let acts = f.after_world(&events, false, 10, 0, false);
    assert_eq!(
        acts,
        vec![
            Action::Play(Sfx::Shoot),
            Action::Play(Sfx::Hit),
            Action::Play(Sfx::Kill),
            Action::Intensity(1),
        ]
    );
    assert_eq!(f.screen, Screen::Playing);
    assert_eq!(dedup(&vec![Sfx::Gem, Sfx::Gem, Sfx::Gem]), vec![Sfx::Gem]);
}

#[test]
fn intensity_rises_with_boss_or_crowd() {
    let mut f = playing();
    assert_eq!(f.after_world(&vec![], true, 0, 0, false), vec![Action::Intensity(2)]);
    assert_eq!(f.after_world(&vec![], false, 46, 0, false), vec![Action::Intensity(2)]);
    assert_eq!(f.after_world(&vec![], false, 45, 0, false), vec![Action::Intensity(1)]);
}

#[test]
fn levelup_card_flow() {
    let mut f = playing();
    let acts = f.after_world(&vec![Sfx::LevelUp], false, 0, 2, false);
    assert_eq!(acts, vec![Action::Play(Sfx::LevelUp), Action::Intensity(1), Action::OpenLevelUp]);
    f.open_levelup(3);
    assert_eq!((f.screen, f.levelup_idx, f.levelup_len), (Screen::LevelUp, 0, 3));
    f.handle_keys(Keys { up: true, ..none() }, false);
    assert_eq!(f.levelup_idx, 2);
    let acts = f.handle_keys(Keys { enter: true, ..none() }, false);
    assert_eq!(acts, vec![Action::Play(Sfx::UiSelect), Action::Pick(2)]);
    let (left, acts) = f.after_pick(true, 2);
    assert_eq!(left, 1);
    assert_eq!(acts, vec![Action::OpenLevelUp]);
    f.open_levelup(3);
    let acts = f.handle_keys(Keys { two: true, ..none() }, false);
    assert_eq!(acts, vec![Action::Play(Sfx::UiSelect), Action::Pick(1)]);
    let (left, acts) = f.after_pick(true, 1);
    assert_eq!(left, 0);
    assert!(acts.is_empty());
    assert_eq!(f.screen, Screen::Playing);
}

#[test]
fn number_keys_only_pick_offered_choices() {
    let mut f = playing();
    f.open_levelup(2);
    assert_eq!(f.handle_keys(Keys { three: true, ..none() }, false), vec![]);
    let acts = f.handle_keys(Keys { one: true, three: true, ..none() }, false);
    assert_eq!(acts, vec![Action::Play(Sfx::UiSelect), Action::Pick(0)]);
}

#[test]
fn run_end_is_scored_once() {
    let mut f = playing();
    let acts = f.after_world(&vec![], false, 0, 0, true);
    assert_eq!(acts, vec![Action::Intensity(1), Action::Finalize]);
    assert_eq!(f.screen, Screen::End);
    assert!(f.recorded);
    // Enter starts a fresh run, to be scored again.
    let acts = f.handle_keys(Keys { enter: true, ..none() }, false);
    assert_eq!(acts, vec![Action::StartRun]);
    assert_eq!(f.screen, Screen::MapIntro);
    assert!(!f.recorded);
}

#[test]
fn final_score_adds_bonuses() {
    assert_eq!(final_score(1000, 60, 5, true), 1000 + 300 + 500 + 5000);
    assert_eq!(final_score(0, 0, 1, false), 100);
    assert_eq!(final_score(250, 17, 3, false), 250 + 85 + 300);
}
