use pencil_kata::pencil::Pencil;

#[test]
fn given_string_with_no_spaces_when_writes_then_lowers_durability() {
    let mut pencil = Pencil::new(4, 4, 4);
    pencil.write("test".to_string());

    assert_eq!(pencil.durability, 0)
}

#[test]
fn given_string_with_capital_letters_when_writes_then_lowers_durability_by_two() {
    let mut pencil = Pencil::new(8, 4, 4);
    pencil.write("TeSt".to_string());

    assert_eq!(pencil.durability, 2)
}

#[test]
fn given_string_with_whitespace_when_writes_then_lowers_durability_for_only_text() {
    let mut pencil = Pencil::new(8, 4, 4);
    pencil.write("test test\n\t\t".to_string());

    assert_eq!(pencil.durability, 0)
}

#[test]
fn given_string_then_writes_to_page() {
    let string = "test test\n\t\t";
    let mut pencil = Pencil::new(8, 4, 4);

    pencil.write(string.to_string());

    assert_eq!(pencil.page, string.to_string())
}

#[test]
fn given_subsequent_writes_then_appends_string() {
    let mut pencil = Pencil::new(16, 4, 4);

    pencil.write("test test\n\t\t".to_string());
    pencil.write("test test".to_string());

    assert_eq!(pencil.page, "test test\n\t\ttest test".to_string())
}

#[test]
fn given_durability_runs_out_writes_spaces_instead_of_text() {
    let mut pencil = Pencil::new(19, 4, 4);

    pencil.write("test: ".to_string());
    pencil.write("gonna test this kata".to_string());

    assert_eq!(pencil.page, "test: gonna test this k   ");
    assert_eq!(pencil.durability, 0);
}

#[test]
fn given_durability_runs_out_then_can_sharpen_to_max() {
    let mut pencil = Pencil::new(7, 1, 4);

    pencil.write("unicorn".to_string());
    pencil.sharpen();

    assert_eq!(pencil.durability, 7);
}

#[test]
fn when_sharpened_then_reduces_length() {
    let mut pencil = Pencil::new(7, 4, 4);

    pencil.sharpen();

    assert_eq!(pencil.length, 3);
}

#[test]
fn given_pencil_with_no_length_when_sharpened_then_does_not_restore_durability() {
    let mut pencil = Pencil::new(7, 0, 4);

    pencil.write("unicorn".to_string());
    pencil.sharpen();

    assert_eq!(pencil.durability, 0);
}

#[test]
fn given_existing_text_when_erasing_replaces_last_instance_with_spaces_word() {
    let mut pencil = Pencil::new(100, 7, 5);

    pencil.write("one two three four three two one".to_string());
    pencil.erase("three".to_string());

    assert_eq!(pencil.page, "one two three four       two one".to_string());
}

#[test]
fn when_erasing_depletes_eraser_durability() {
    let mut pencil = Pencil::new(100, 7, 5);

    pencil.write("one two three four three two one".to_string());
    pencil.erase("three".to_string());

    assert_eq!(pencil.eraser_durability, 0);
}

#[test]
fn given_not_enough_durability_when_erasing_starts_from_end_of_word() {
    let mut pencil = Pencil::new(100, 7, 3);

    pencil.write("one two three four three two one".to_string());
    pencil.erase("three".to_string());

    assert_eq!(pencil.page, "one two three four th    two one".to_string());
}

#[test]
fn new_pencil_starts_sharp_with_empty_page() {
    let pencil = Pencil::new(9, 2, 3);

    assert_eq!(pencil.max_durability, 9);
    assert_eq!(pencil.durability, 9);
    assert_eq!(pencil.length, 2);
    assert_eq!(pencil.eraser_durability, 3);
    assert_eq!(pencil.page, "");
}

#[test]
fn whitespace_only_text_costs_nothing() {
    let mut pencil = Pencil::new(5, 1, 1);
    pencil.write("ab".to_string());
    pencil.write(" \t\n  ".to_string());

    assert_eq!(pencil.durability, 3);
    assert_eq!(pencil.page, "ab \t\n  ");
}

#[test]
fn out_of_lead_keeps_whitespace_and_blanks_the_rest() {
    let mut pencil = Pencil::new(0, 0, 0);
    pencil.write("Hi there!\nok".to_string());

    assert_eq!(pencil.page, "         \n  ");
    assert_eq!(pencil.durability, 0);
}

#[test]
fn capital_that_cannot_be_paid_in_full_is_written_as_space() {
    let mut pencil = Pencil::new(2, 0, 0);
    pencil.write("aB".to_string());

    assert_eq!(pencil.page, "a ");
    assert_eq!(pencil.durability, 1);
}

#[test]
fn capital_letters_cost_two() {
    let mut pencil = Pencil::new(8, 0, 0);
    pencil.write("TeSt".to_string());

    assert_eq!(pencil.page, "TeSt");
    assert_eq!(pencil.durability, 2);
}

#[test]
fn sharpen_restores_to_cap_and_uses_one_length() {
    let mut pencil = Pencil::new(10, 2, 0);
    pencil.write("abcd".to_string());
    pencil.sharpen();

    assert_eq!(pencil.durability, 10);
    assert_eq!(pencil.length, 1);

    pencil.write("xyz".to_string());
    pencil.sharpen();
    assert_eq!(pencil.durability, 10);
    assert_eq!(pencil.length, 0);

    pencil.write("xyz".to_string());
    pencil.sharpen();
    assert_eq!(pencil.durability, 7);
    assert_eq!(pencil.length, 0);
}

#[test]
fn erase_with_more_budget_than_the_word_blanks_the_last_match() {
    let mut pencil = Pencil::new(100, 0, 7);
    pencil.write("one two three four three two one".to_string());
    pencil.erase("three".to_string());

    assert_eq!(pencil.page, "one two three four       two one");
    assert_eq!(pencil.eraser_durability, 2);
}

#[test]
fn erase_with_exact_budget_empties_the_eraser() {
    let mut pencil = Pencil::new(100, 0, 5);
    pencil.write("one two three four three two one".to_string());
    pencil.erase("three".to_string());

    assert_eq!(pencil.page, "one two three four       two one");
    assert_eq!(pencil.eraser_durability, 0);
}

#[test]
fn partial_erase_keeps_the_prefix() {
    let mut pencil = Pencil::new(100, 0, 3);
    pencil.write("one two three four three two one".to_string());
    pencil.erase("three".to_string());

    assert_eq!(pencil.page, "one two three four th    two one");
    assert_eq!(pencil.eraser_durability, 0);
}

#[test]
fn erasing_an_absent_word_changes_nothing() {
    let mut pencil = Pencil::new(100, 0, 4);
    pencil.write("one two".to_string());
    pencil.erase("three".to_string());

    assert_eq!(pencil.page, "one two");
    assert_eq!(pencil.eraser_durability, 4);
}

#[test]
fn erasing_with_a_worn_out_eraser_changes_nothing() {
    let mut pencil = Pencil::new(100, 0, 0);
    pencil.write("one two".to_string());
    pencil.erase("two".to_string());

    assert_eq!(pencil.page, "one two");
    assert_eq!(pencil.eraser_durability, 0);
}

#[test]
fn erasing_the_empty_word_changes_nothing() {
    let mut pencil = Pencil::new(100, 0, 4);
    pencil.write("abc".to_string());
    pencil.erase("".to_string());

    assert_eq!(pencil.page, "abc");
    assert_eq!(pencil.eraser_durability, 4);
}

#[test]
fn erase_takes_the_last_non_overlapping_match() {
    let mut pencil = Pencil::new(100, 0, 9);
    pencil.write("aaa".to_string());
    pencil.erase("aa".to_string());

    assert_eq!(pencil.page, "  a");
    assert_eq!(pencil.eraser_durability, 7);
}

#[test]
fn erasing_twice_reaches_the_earlier_match() {
    let mut pencil = Pencil::new(100, 0, 10);
    pencil.write("cat hat cat".to_string());
    pencil.erase("cat".to_string());
    pencil.erase("cat".to_string());

    assert_eq!(pencil.page, "    hat    ");
    assert_eq!(pencil.eraser_durability, 4);
}
