use vstd::prelude::*;

use crate::clock::Weekday;

verus! {

/// Mathematical content of a text message payload.
pub ghost struct SimpleMessageView {
    pub type_: Seq<char>,
    pub text: Seq<char>,
}

/// A message payload that can describe itself as canonical document text.
pub trait Message {
    /// The canonical text this payload describes itself as.
    spec fn json_spec(&self) -> Seq<char>;

    fn json(&self) -> (r: String)
        ensures
            r@ == self.json_spec(),
    ;
}

/// A plain text message payload: a type tag and the text itself.
#[derive(Debug)]
pub struct SimpleMessage {
    pub type_: String,
    pub text: String,
}

impl View for SimpleMessage {
    type V = SimpleMessageView;

    open spec fn view(&self) -> SimpleMessageView {
        SimpleMessageView { type_: self.type_@, text: self.text@ }
    }
}

impl SimpleMessage {
    /// A text message with the given contents.
    pub fn new(string: &str) -> (r: Self)
        ensures
            r@.type_ == "text"@,
            r@.text == string@,
    {
        SimpleMessage { type_: "text".to_owned(), text: string.to_owned() }
    }

}

impl Clone for SimpleMessage {
    fn clone(&self) -> (r: Self)
        ensures
            r@ == self@,
    {
        SimpleMessage { type_: self.type_.clone(), text: self.text.clone() }
    }
}

/// A payload addressed to every friend of the bot at once.
pub struct BloadcastMessage {
    pub messages: Vec<SimpleMessage>,
}

/// A payload addressed to one recipient.
pub struct PushMessage {
    pub to: String,
    pub messages: Vec<SimpleMessage>,
}

/// Profile data of a chat member, as the messaging platform reports it.
#[allow(non_snake_case)]
pub struct UserProfile {
    pub displayName: String,
    pub userId: String,
    pub language: Option<String>,
    pub pictureUrl: Option<String>,
    pub statusMessage: Option<String>,
}

/// The Japanese single-character name of a weekday, as the announcement
/// text uses it.
pub fn weekday_to_jp(weekday: Weekday) -> (r: String)
    ensures
        weekday == Weekday::Sun ==> r@ == "日"@,
        weekday == Weekday::Mon ==> r@ == "月"@,
        weekday == Weekday::Tue ==> r@ == "火"@,
        weekday == Weekday::Wed ==> r@ == "水"@,
        weekday == Weekday::Thu ==> r@ == "木"@,
        weekday == Weekday::Fri ==> r@ == "金"@,
        weekday == Weekday::Sat ==> r@ == "土"@,
{
    match weekday {
        Weekday::Sun => "日".to_owned(),
        Weekday::Mon => "月".to_owned(),
        Weekday::Tue => "火".to_owned(),
        Weekday::Wed => "水".to_owned(),
        Weekday::Thu => "木".to_owned(),
        Weekday::Fri => "金".to_owned(),
        Weekday::Sat => "土".to_owned(),
    }
}

} // verus!
