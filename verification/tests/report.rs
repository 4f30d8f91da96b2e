use drops_report::model::{DropCampaign, Game, Reward};
use drops_report::ordering::sort_games;
use drops_report::phrase::{ends_in_days, format_days_from_now};
use drops_report::recent::group_recent;
use drops_report::render::{render_all_section, render_recent_section, render_report};
use drops_report::text::escape_markdown;

const DAY: i64 = 86400;
// Unix day 20000 is 2024-10-04; an hour past its midnight.
const NOW: i64 = 20000 * DAY + 3600;

fn game(name: &str, drops: Vec<DropCampaign>) -> Game {
    Game { display_name: name.to_string(), drops }
}

fn drop_c(name: &str, start_at: i64, end_at: i64, rewards: Vec<Reward>) -> DropCampaign {
    DropCampaign { name: name.to_string(), start_at, end_at, rewards }
}

fn reward(name: &str, minutes: u16) -> Reward {
    Reward { name: name.to_string(), minutes_required: minutes }
}

#[test]
fn sorts_case_insensitively() {
    let games = vec![
        game("Zeta", vec![]),
        game("alpha", vec![]),
        game("Beta", vec![]),
    ];
    let sorted = sort_games(games);
    let names: Vec<&str> = sorted.iter().map(|g| g.display_name.as_str()).collect();
    assert_eq!(names, vec!["alpha", "Beta", "Zeta"]);
}

#[test]
fn sort_keeps_ties_stable() {
    let games = vec![
        game("FOO", vec![drop_c("first", 0, 0, vec![])]),
        game("bar", vec![]),
        game("foo", vec![drop_c("second", 0, 0, vec![])]),
    ];
    let sorted = sort_games(games);
    assert_eq!(sorted[0].display_name, "bar");
    assert_eq!(sorted[1].display_name, "FOO");
    assert_eq!(sorted[1].drops[0].name, "first");
    assert_eq!(sorted[2].display_name, "foo");
    assert_eq!(sorted[2].drops[0].name, "second");
}

#[test]
fn escapes_every_special_character() {
    let input = "\\`*_{}[]()#+-.!|<>~";
    let escaped = escape_markdown(input);
    let expected = "\\\\\\`\\*\\_\\{\\}\\[\\]\\(\\)\\#\\+\\-\\.\\!\\|\\<\\>\\~";
    assert_eq!(escaped, expected);
}

#[test]
fn escaping_passes_plain_text_through() {
    assert_eq!(escape_markdown("plain text 123"), "plain text 123");
    assert_eq!(escape_markdown(""), "");
}

#[test]
fn escaping_keeps_distinct_names_distinct() {
    let a = escape_markdown("a*b");
    let b = escape_markdown("a\\*b");
    assert_ne!(a, b);
}

#[test]
fn phrase_cases() {
    assert_eq!(ends_in_days(NOW - DAY, NOW), "already ended");
    assert_eq!(ends_in_days(NOW - 1, NOW), "ends today");
    assert_eq!(ends_in_days(NOW, NOW), "ends today");
    assert_eq!(ends_in_days(NOW + DAY, NOW), "ends tomorrow");
    assert_eq!(ends_in_days(NOW + 2 * DAY, NOW), "ends in 2 days");
    assert_eq!(ends_in_days(NOW + 40 * DAY + 7, NOW), "ends in 40 days");
}

#[test]
fn phrase_is_idempotent() {
    let first = ends_in_days(NOW + 5 * DAY, NOW);
    let second = ends_in_days(NOW + 5 * DAY, NOW);
    assert_eq!(first, second);
    assert_eq!(format_days_from_now(0), "today");
    assert_eq!(format_days_from_now(1), "tomorrow");
    assert_eq!(format_days_from_now(123456), "in 123456 days");
}

#[test]
fn window_boundary_is_open_on_the_past_side() {
    let cutoff = NOW - 7 * DAY;
    let games = vec![game(
        "Game",
        vec![
            drop_c("at cutoff", cutoff, NOW + DAY, vec![]),
            drop_c("just inside", cutoff + 1, NOW + DAY, vec![]),
        ],
    )];
    let groups = group_recent(&games, NOW);
    assert_eq!(groups.len(), 1);
    assert_eq!(groups[0].games.len(), 1);
    let drops = &groups[0].games[0].drops;
    assert_eq!(drops.len(), 1);
    assert_eq!(drops[0].drop_name, "just inside");
}

#[test]
fn recent_dates_descend_and_games_ascend() {
    let games = vec![
        game(
            "Beta",
            vec![
                drop_c("b-old", NOW - 3 * DAY, NOW, vec![]),
                drop_c("b-new", NOW - DAY, NOW, vec![]),
            ],
        ),
        game("Alpha", vec![drop_c("a-old", NOW - 3 * DAY, NOW, vec![])]),
    ];
    let groups = group_recent(&games, NOW);
    assert_eq!(groups.len(), 2);
    assert!(groups[0].day > groups[1].day);
    assert_eq!(groups[0].games.len(), 1);
    assert_eq!(groups[0].games[0].name, "Beta");
    assert_eq!(groups[0].games[0].drops[0].drop_name, "b-new");
    let names: Vec<&str> = groups[1].games.iter().map(|g| g.name.as_str()).collect();
    assert_eq!(names, vec!["Alpha", "Beta"]);
    assert_eq!(groups[1].games[1].drops[0].drop_name, "b-old");
}

#[test]
fn exact_names_bucket_separately_in_recent() {
    let games = vec![
        game("Foo", vec![drop_c("one", NOW - DAY, NOW, vec![])]),
        game("foo", vec![drop_c("two", NOW - DAY, NOW, vec![])]),
    ];
    let groups = group_recent(&games, NOW);
    assert_eq!(groups.len(), 1);
    let names: Vec<&str> = groups[0].games.iter().map(|g| g.name.as_str()).collect();
    assert_eq!(names, vec!["Foo", "foo"]);
}

#[test]
fn empty_input_renders_only_the_no_campaigns_line() {
    let games: Vec<Game> = vec![];
    let report = render_report(&games, NOW);
    assert_eq!(
        report,
        "# Twitch Drops Campaigns\n\nNo active drops campaigns found.\n"
    );
}

#[test]
fn empty_window_renders_the_explanatory_line() {
    let games = vec![game(
        "Old Game",
        vec![drop_c("old drop", NOW - 30 * DAY, NOW - 20 * DAY, vec![])],
    )];
    let groups = group_recent(&games, NOW);
    assert_eq!(groups.len(), 0);
    let section = render_recent_section(&groups, NOW);
    assert_eq!(
        section,
        "## Recent Drops\n\nNo drop campaigns started in the last 7 days.\n\n"
    );
}

#[test]
fn all_section_lists_rewards_with_thresholds() {
    let games = vec![game(
        "Game",
        vec![drop_c(
            "Drop",
            NOW - DAY,
            NOW + DAY,
            vec![reward("Poster", 30), reward("Badge", 65535)],
        )],
    )];
    let section = render_all_section(&games, NOW);
    assert_eq!(
        section,
        "## All drops\n\nGame\n- Drop (ends tomorrow)\n  - Poster (30 minutes watched)\n  - Badge (65535 minutes watched)\n\n"
    );
}

#[test]
fn game_without_drops_still_gets_its_block() {
    let games = vec![game("Quiet", vec![])];
    let section = render_all_section(&games, NOW);
    assert_eq!(section, "## All drops\n\nQuiet\n\n");
}

#[test]
fn full_report_example() {
    let games = vec![
        game(
            "Zeta",
            vec![drop_c(
                "Big*Prize",
                NOW - 2 * DAY,
                NOW + 3 * DAY + 100,
                vec![reward("Poster", 30)],
            )],
        ),
        game(
            "alpha",
            vec![drop_c("Old Drop", NOW - 10 * DAY, NOW - DAY, vec![])],
        ),
    ];
    let sorted = sort_games(games);
    let report = render_report(&sorted, NOW);
    let expected = "# Twitch Drops Campaigns\n\n## Recent Drops\n\n2024-10-02\n- Zeta\n  - Big\\*Prize (ends in 3 days)\n\n## All drops\n\nalpha\n- Old Drop (already ended)\n\nZeta\n- Big\\*Prize (ends in 3 days)\n  - Poster (30 minutes watched)\n\n";
    assert_eq!(report, expected);
}

#[test]
fn dates_before_the_epoch_floor_to_the_earlier_day() {
    let games = vec![game("G", vec![drop_c("d", -3600, 3600, vec![])])];
    let groups = group_recent(&games, 3600);
    assert_eq!(groups.len(), 1);
    assert_eq!(groups[0].day, -1);
    let section = render_recent_section(&groups, 3600);
    assert_eq!(section, "## Recent Drops\n\n1969-12-31\n- G\n  - d (ends today)\n\n");
}

#[test]
fn future_starts_count_as_recent() {
    let games = vec![game(
        "G",
        vec![drop_c("future", NOW + 3 * DAY, NOW + 9 * DAY, vec![])],
    )];
    let groups = group_recent(&games, NOW);
    assert_eq!(groups.len(), 1);
    assert_eq!(groups[0].games[0].drops[0].drop_name, "future");
}

#[test]
fn recent_groups_drops_of_one_game_keep_source_order() {
    let games = vec![game(
        "Game",
        vec![
            drop_c("first", NOW - DAY, NOW, vec![]),
            drop_c("second", NOW - DAY + 10, NOW, vec![]),
        ],
    )];
    let groups = group_recent(&games, NOW);
    assert_eq!(groups.len(), 1);
    let drops = &groups[0].games[0].drops;
    assert_eq!(drops.len(), 2);
    assert_eq!(drops[0].drop_name, "first");
    assert_eq!(drops[1].drop_name, "second");
}
