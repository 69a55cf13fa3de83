use file_processor::catalog::{book_line, parse_book_line, parse_u16, trim_str, Book};
use file_processor::closures::{process_vector, track_changes, ComputeCache};
use file_processor::fetch::{
    classify_api_response, classify_download_status, DogFetcherError, DogImage,
};
use file_processor::guessing::{check_guess, run_guesses};
use file_processor::numbers::{classify_number, is_even, largest_number, sum_numbers, NumberClass};
use file_processor::strutil::u16_to_string;
use file_processor::students::{Enrollment, ShowInfo, Student};
use file_processor::text::{is_space, line_count, word_count};

#[test]
fn parity_of_small_numbers() {
    assert!(is_even(0));
    assert!(is_even(-4));
    assert!(!is_even(7));
    assert!(!is_even(-7));
}

#[test]
fn fizz_buzz_classification() {
    assert_eq!(classify_number(15), NumberClass::FizzBuzz);
    assert_eq!(classify_number(30), NumberClass::FizzBuzz);
    assert_eq!(classify_number(3), NumberClass::Fizz);
    assert_eq!(classify_number(5), NumberClass::Buzz);
    assert_eq!(classify_number(4), NumberClass::Even);
    assert_eq!(classify_number(7), NumberClass::Odd);
}

#[test]
fn sum_and_largest_of_the_demo_array() {
    let numbers = vec![1, 2, 3, 4, 5, 6, 7, 8, 15, 30];
    assert_eq!(sum_numbers(&numbers), 81);
    assert_eq!(largest_number(&numbers), 30);
}

#[test]
fn guess_comparison_codes() {
    assert_eq!(check_guess(42, 42), 0);
    assert_eq!(check_guess(50, 42), 1);
    assert_eq!(check_guess(20, 42), -1);
}

#[test]
fn simulated_game_hits_on_the_fifth_guess() {
    let guesses = vec![20, 50, 40, 45, 42];
    assert_eq!(run_guesses(42, &guesses), Some(5));
    assert_eq!(run_guesses(99, &guesses), None);
    assert_eq!(run_guesses(42, &Vec::new()), None);
}

#[test]
fn book_round_trips_through_its_line() {
    let book = Book {
        title: "1984".to_string(),
        author: "George Orwell".to_string(),
        year: 1949,
    };
    let line = book_line(&book);
    assert_eq!(line, "1984,George Orwell,1949");
    let back = parse_book_line(&line).expect("well-formed line parses");
    assert_eq!(back, book);
}

#[test]
fn parsing_trims_each_field() {
    let back = parse_book_line("  A Game of Thrones , George R. R. Martin ,  1996  ")
        .expect("padded line parses");
    assert_eq!(back.title, "A Game of Thrones");
    assert_eq!(back.author, "George R. R. Martin");
    assert_eq!(back.year, 1996);
}

#[test]
fn malformed_lines_parse_to_nothing() {
    assert!(parse_book_line("").is_none());
    assert!(parse_book_line("only title").is_none());
    assert!(parse_book_line("two,fields").is_none());
    assert!(parse_book_line("a,b,c,d").is_none());
    assert!(parse_book_line("a,b,196x").is_none());
    assert!(parse_book_line("a,b,70000").is_none());
    assert!(parse_book_line("a,b,").is_none());
    assert!(parse_book_line("a,b,-3").is_none());
}

#[test]
fn year_parsing_matches_the_standard_reader() {
    assert_eq!(parse_u16("1949"), Some(1949));
    assert_eq!(parse_u16("+1949"), Some(1949));
    assert_eq!(parse_u16("0042"), Some(42));
    assert_eq!(parse_u16("65535"), Some(65535));
    assert_eq!(parse_u16("65536"), None);
    assert_eq!(parse_u16("99999999999999999999"), None);
    assert_eq!(parse_u16(""), None);
    assert_eq!(parse_u16("+"), None);
    assert_eq!(parse_u16("++1"), None);
    assert_eq!(parse_u16(" 1"), None);
}

#[test]
fn trimming_strips_unicode_white_space() {
    assert_eq!(trim_str("  hello  "), "hello");
    assert_eq!(trim_str("\t x \n"), "x");
    assert_eq!(trim_str("\u{a0}pad\u{2003}"), "pad");
    assert_eq!(trim_str("   "), "");
    assert_eq!(trim_str(""), "");
}

#[test]
fn decimal_rendering_of_years() {
    assert_eq!(u16_to_string(0), "0");
    assert_eq!(u16_to_string(7), "7");
    assert_eq!(u16_to_string(1949), "1949");
    assert_eq!(u16_to_string(65535), "65535");
}

#[test]
fn api_response_classification() {
    let img = DogImage { message: "https://example.invalid/dog.jpg".to_string(), status: "success".to_string() };
    match classify_api_response(200, Ok(img)) {
        Ok(got) => {
            assert_eq!(got.message, "https://example.invalid/dog.jpg");
            assert_eq!(got.status, "success");
        },
        Err(_) => panic!("status 200 with a parsed body must go through"),
    }
    match classify_api_response(200, Err("boom".to_string())) {
        Err(DogFetcherError::ParseError(m)) => assert_eq!(m, "Failed to parse JSON: boom"),
        _ => panic!("undecoded body must be a parse error"),
    }
    match classify_api_response(404, Err("ignored".to_string())) {
        Err(DogFetcherError::ApiError(m)) => {
            assert_eq!(m, "API responded with HTTP status: 404")
        },
        _ => panic!("non-200 status must be an API error"),
    }
}

#[test]
fn download_status_classification() {
    assert!(classify_download_status(200).is_ok());
    match classify_download_status(500) {
        Err(DogFetcherError::ApiError(m)) => {
            assert_eq!(m, "Image download failed with HTTP status: 500")
        },
        _ => panic!("non-200 status must be an API error"),
    }
}

#[test]
fn error_descriptions() {
    let e = DogFetcherError::NetworkError("timed out".to_string());
    assert_eq!(e.describe(), "Network connectivity error: timed out");
    let e = DogFetcherError::IoError("disk full".to_string());
    assert_eq!(e.describe(), "File system I/O error: disk full");
}

#[test]
fn student_major_can_be_replaced() {
    let mut student = Student::new("Leonel Saenz".to_string(), "Computer Science".to_string());
    assert_eq!(student.get_major(), "Computer Science");
    student.set_major("Business".to_string());
    assert_eq!(student.get_major(), "Business");
    assert_eq!(student.name, "Leonel Saenz");
}

#[test]
fn enrollment_lists_every_student() {
    let students = vec![
        Student::new("Ada".to_string(), "Mathematics".to_string()),
        Student::new("Alan".to_string(), "Logic".to_string()),
    ];
    let enrollment = Enrollment::new(students);
    let lines = enrollment.roster_lines();
    assert_eq!(lines, vec!["Ada: Mathematics".to_string(), "Alan: Logic".to_string()]);
    assert_eq!(enrollment.enrolled_students[0].show_info(), "Ada: Mathematics");
}

#[test]
fn tracker_is_updated_twice() {
    assert_eq!(track_changes(), 2);
}

#[test]
fn vector_transforms_through_closures() {
    let numbers = vec![1, 2, 3];
    let doubled = process_vector(numbers.clone(), |x| x * 2);
    assert_eq!(doubled, vec![2, 4, 6]);
    let replaced = process_vector(numbers, |x| if x > 2 { 0 } else { x });
    assert_eq!(replaced, vec![1, 2, 0]);
}

#[test]
fn compute_cache_runs_once_and_replays() {
    let mut cache = ComputeCache::new(|| "Hello, world!".to_string());
    assert!(cache.cached.is_none());
    assert_eq!(cache.get_result(), "Hello, world!");
    assert_eq!(cache.cached.as_deref(), Some("Hello, world!"));
    assert_eq!(cache.get_result(), "Hello, world!");
}

#[test]
fn word_and_line_counts_follow_white_space() {
    assert_eq!(word_count(""), 0);
    assert_eq!(word_count("   "), 0);
    assert_eq!(word_count("go go 2"), 3);
    assert_eq!(word_count("a\u{a0}b\tc\nd"), 4);
    assert_eq!(line_count(""), 0);
    assert_eq!(line_count("x\ny\n"), 2);
    assert_eq!(line_count("x\ny"), 2);
    assert_eq!(line_count("\n\n"), 2);
    assert!(is_space('\u{2028}'));
    assert!(!is_space('_'));
}
