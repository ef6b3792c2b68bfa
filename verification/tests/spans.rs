use gitu::sgr::{apply_sgr, parse_extended_color, parse_u32};
use gitu::spans::{
    collect_line_highlights, fill_gaps, next_merged_style, zip_styles, Span, SpanCursor,
};
use gitu::style::{Color, Modifier, Style, BOLD, CROSSED_OUT, DIM, ITALIC, UNDERLINED};

fn fg(color: Color) -> Style {
    Style {
        fg: Some(color),
        ..Style::new()
    }
}

fn adding(bits: u16) -> Style {
    Style {
        add_modifier: Modifier { bits },
        ..Style::new()
    }
}

fn removing(bits: u16) -> Style {
    Style {
        sub_modifier: Modifier { bits },
        ..Style::new()
    }
}

#[test]
fn gaps_are_filled_from_end_to_end() {
    let red = fg(Color::Red);
    let ranges: Vec<Span> = vec![(2..4, red), (4..5, fg(Color::Blue)), (7..7, red)];
    assert_eq!(
        fill_gaps(0..9, &ranges, Style::new()),
        [
            (0..2, Style::new()),
            (2..4, red),
            (4..5, fg(Color::Blue)),
            (5..7, Style::new()),
            (7..9, Style::new()),
        ]
    );
    assert!(fill_gaps(3..3, &[], red).is_empty());
    assert_eq!(fill_gaps(0..3, &[], red), [(0..3, red)]);
}

#[test]
fn styles_are_laid_over_each_other() {
    let a: Vec<Span> = vec![(0..4, fg(Color::Red)), (4..8, Style::new())];
    let b: Vec<Span> = vec![
        (0..2, Style::new()),
        (2..6, adding(BOLD)),
        (6..8, fg(Color::Blue)),
    ];
    let bold_red = Style {
        fg: Some(Color::Red),
        ..adding(BOLD)
    };
    assert_eq!(
        zip_styles(a, b),
        [
            (0..2, fg(Color::Red)),
            (2..4, bold_red),
            (4..6, adding(BOLD)),
            (6..8, fg(Color::Blue)),
        ]
    );
}

#[test]
fn what_ends_first_is_passed() {
    let mut a = SpanCursor::new(vec![(0..4, fg(Color::Red))]);
    let mut b = SpanCursor::new(vec![(0..2, Style::new()), (2..4, adding(DIM))]);
    assert_eq!(
        next_merged_style(&mut a, &mut b),
        Some((0..2, fg(Color::Red)))
    );
    assert_eq!(a.peek(), Some((0..4, fg(Color::Red))));
    assert_eq!(b.peek(), Some((2..4, adding(DIM))));
    assert_eq!(next_merged_style(&mut a, &mut b).unwrap().0, 2..4);
    assert_eq!(next_merged_style(&mut a, &mut b), None);
}

#[test]
fn a_line_is_cut_out_of_what_runs_over_it() {
    let red = fg(Color::Red);
    let mut highlights = SpanCursor::new(vec![(0..3, Style::new()), (3..9, red)]);
    let mut result = vec![];
    collect_line_highlights(&mut highlights, &(2..5), &mut result);
    assert_eq!(result, [(0..1, Style::new()), (1..3, red)]);
    // What runs on into the next line is still there for it.
    let mut next = vec![];
    collect_line_highlights(&mut highlights, &(6..8), &mut next);
    assert_eq!(next, [(0..2, red)]);
}

#[test]
fn laying_on_nothing_or_laying_nothing_on_changes_nothing() {
    let style = Style {
        fg: Some(Color::Red),
        bg: Some(Color::Black),
        ..adding(BOLD)
    };
    assert_eq!(style.patch(Style::new()), style);
    assert_eq!(Style::new().patch(style), style);
    assert_eq!(style.patch(style), style);
}

#[test]
fn a_later_layer_wins() {
    let red = fg(Color::Red);
    assert_eq!(red.patch(fg(Color::Blue)), fg(Color::Blue));
    assert_eq!(
        adding(BOLD | ITALIC).patch(removing(BOLD)),
        Style {
            add_modifier: Modifier { bits: ITALIC },
            ..removing(BOLD)
        }
    );
    assert_eq!(
        removing(BOLD).patch(adding(BOLD)),
        adding(BOLD)
    );
    let (a, b, c) = (red, adding(DIM), removing(BOLD));
    assert_eq!(a.patch(b).patch(c), a.patch(b.patch(c)));
}

#[test]
fn attributes_are_joined_and_taken_away() {
    let both = Modifier { bits: BOLD }.union(Modifier { bits: DIM });
    assert_eq!(both.bits, BOLD | DIM);
    assert_eq!(both.difference(Modifier { bits: BOLD }).bits, DIM);
    assert_eq!(Modifier::empty().bits, 0);
}

fn sgr(start: Style, codes: &[u16]) -> Style {
    let mut style = start;
    apply_sgr(&mut style, codes);
    style
}

#[test]
fn sgr_parameters_change_the_style() {
    assert_eq!(sgr(adding(BOLD), &[]), Style::new());
    assert_eq!(sgr(fg(Color::Red), &[0, 1]), adding(BOLD));
    assert_eq!(sgr(Style::new(), &[31]), fg(Color::Indexed(1)));
    assert_eq!(sgr(Style::new(), &[97]), fg(Color::Indexed(15)));
    assert_eq!(
        sgr(Style::new(), &[44, 103]).bg,
        Some(Color::Indexed(11))
    );
    assert_eq!(sgr(adding(BOLD | DIM | ITALIC), &[22]), adding(ITALIC));
    assert_eq!(
        sgr(adding(UNDERLINED | CROSSED_OUT), &[24, 29]),
        Style::new()
    );
    assert_eq!(sgr(fg(Color::Red), &[39]), Style::new());
    assert_eq!(sgr(fg(Color::Red), &[5, 6, 200]), fg(Color::Red));
}

#[test]
fn extended_colours_take_the_parameters_that_spell_them() {
    assert_eq!(
        sgr(Style::new(), &[38, 2, 1, 2, 3, 1]),
        Style {
            fg: Some(Color::Rgb(1, 2, 3)),
            ..adding(BOLD)
        }
    );
    assert_eq!(
        sgr(Style::new(), &[48, 5, 200]).bg,
        Some(Color::Indexed(200))
    );
    // One that can't be read ends the list.
    assert_eq!(sgr(Style::new(), &[38, 5]), Style::new());
    assert_eq!(sgr(Style::new(), &[38, 7, 1]), Style::new());
    assert_eq!(
        parse_extended_color(&[38, 5, 256 + 7], 1),
        Some((Color::Indexed(7), 2))
    );
}

#[test]
fn numbers_are_read_as_they_are_written() {
    assert_eq!(parse_u32(b"0042"), Some(42));
    assert_eq!(parse_u32(b"+7"), Some(7));
    assert_eq!(parse_u32(b"4294967295"), Some(u32::MAX));
    assert_eq!(parse_u32(b"4294967296"), None);
    assert_eq!(parse_u32(b""), None);
    assert_eq!(parse_u32(b"+"), None);
    assert_eq!(parse_u32(b"-1"), None);
    assert_eq!(parse_u32(b"1x"), None);
}
