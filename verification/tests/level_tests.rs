use ratrun::level::{theme_props, Level, Palette, PropKind, Rect, Theme, ARENA_H, ARENA_W};

#[test]
fn layout_counts_per_theme() {
    assert_eq!(Level::new(Theme::Sewer).props.len(), 36);
    assert_eq!(Level::new(Theme::Kitchen).props.len(), 39);
    assert_eq!(Level::new(Theme::Lab).props.len(), 37);
}

#[test]
fn first_and_last_props() {
    let l = Level::new(Theme::Sewer);
    assert_eq!(l.props[0].kind, PropKind::PipeV);
    assert_eq!(l.props[0].rect, Rect::new(83, 54, 14, 72));
    let last = l.props[l.props.len() - 1];
    assert_eq!(last.kind, PropKind::PipeH);
    assert_eq!(last.rect, Rect::new(912, 743, 72, 14));
    let k = Level::new(Theme::Kitchen);
    assert_eq!(k.props[0].kind, PropKind::Table);
    assert_eq!(k.props[0].rect, Rect::new(70, 77, 40, 26));
}

#[test]
fn props_keep_spawn_clear_and_off_edges() {
    for t in Theme::all() {
        let l = Level::new(t);
        assert_eq!(l.walls.len(), l.props.len());
        for (i, p) in l.props.iter().enumerate() {
            assert_eq!(l.walls[i], p.rect);
            let cx = p.rect.x + p.rect.w / 2;
            let cy = p.rect.y + p.rect.h / 2;
            let dx = cx - ARENA_W / 2;
            let dy = cy - ARENA_H / 2;
            assert!(dx * dx + dy * dy >= 120 * 120);
            assert!(p.rect.x >= 26 && p.rect.right() <= ARENA_W - 26);
            assert!(p.rect.y >= 26 && p.rect.bottom() <= ARENA_H - 26);
            assert!(theme_props(t).contains(&p.kind));
        }
    }
}

#[test]
fn level_has_arena_palette_and_nav() {
    let l = Level::new(Theme::Lab);
    assert_eq!(l.theme, Theme::Lab);
    assert_eq!((l.arena_w, l.arena_h), (1020, 800));
    assert_eq!(l.palette, Palette::for_theme(Theme::Lab));
    assert_eq!(l.palette.accent, (120, 220, 255));
    assert_eq!((l.nav.cols, l.nav.rows, l.nav.cell), (64, 50, 16));
    // The first Lab prop is a console at (67, 81) 46x18: the cell holding
    // its top-left corner is blocked, the arena center is free.
    assert!(l.nav.is_blocked(67 / 16, 81 / 16));
    assert!(!l.nav.is_blocked(510 / 16, 400 / 16));
}

#[test]
fn theme_names_and_sizes() {
    assert_eq!(Theme::all(), [Theme::Sewer, Theme::Kitchen, Theme::Lab]);
    assert_eq!(Theme::Kitchen.name(), "Kitchen");
    assert_eq!(PropKind::Counter.size(), (66, 22));
    assert_eq!(PropKind::Barrier.size(), (16, 66));
    let r = Rect::new(10, 20, 30, 40);
    assert_eq!((r.right(), r.bottom()), (40, 60));
}
