//! What a connection answers.
use vstd::prelude::*;

use crate::connection;
use crate::connection::Step;
use crate::request::Request;

verus! {

/// The requests that are answered on a connection, in order. `reads` is what the reads give, one
/// after the other, and `sent` whether each answer could be sent.
pub open spec fn answered(reads: Seq<Result<Request, Vec<u8>>>, sent: Seq<bool>) -> Seq<Request>
    decreases reads.len(),
{
    if reads.len() == 0 {
        Seq::empty()
    } else {
        match connection::step_after_read(reads[0]) {
            Step::Respond { keep_alive } => {
                let rest = match connection::step_after_response(sent[0], keep_alive) {
                    Step::Read => answered(reads.drop_first(), sent.drop_first()),
                    _ => Seq::empty(),
                };
                seq![reads[0]->Ok_0] + rest
            },
            _ => Seq::empty(),
        }
    }
}

/// Whether the connection is kept behind a request, where its answer can be sent.
pub open spec fn kept(request: Request) -> bool {
    request matches Request::Get { headers, .. } && !headers.close
}

/// A connection answers one request after the other, each once, up to the first that is not kept,
/// whose answer cannot be sent, or that cannot be read.
pub proof fn law_answers_in_order(reads: Seq<Result<Request, Vec<u8>>>, sent: Seq<bool>)
    requires
        sent.len() == reads.len(),
    ensures
        ({
            let answers = answered(reads, sent);
            let n = answers.len() as int;
            &&& n <= reads.len()
            &&& forall|i: int| 0 <= i < n ==> reads[i] == Ok::<_, Vec<u8>>(#[trigger] answers[i])
            &&& forall|i: int| 0 <= i < n - 1 ==> kept(#[trigger] answers[i]) && sent[i]
            &&& n < reads.len() ==> {
                ||| n > 0 && !(kept(answers[n - 1]) && sent[n - 1])
                ||| reads[n] is Err
            }
        }),
    decreases reads.len(),
{
    if reads.len() > 0 {
        let answers = answered(reads, sent);
        if let Step::Respond { keep_alive } = connection::step_after_read(reads[0]) {
            if sent[0] && keep_alive {
                let rest = answered(reads.drop_first(), sent.drop_first());
                law_answers_in_order(reads.drop_first(), sent.drop_first());
                assert(answers == seq![reads[0]->Ok_0] + rest);
                assert forall|i: int| 0 <= i < answers.len() implies reads[i] == Ok::<_, Vec<u8>>(
                    #[trigger] answers[i],
                ) by {
                    if i > 0 {
                        assert(answers[i] == rest[i - 1]);
                    }
                }
                assert forall|i: int| 0 <= i < answers.len() - 1 implies kept(
                    #[trigger] answers[i],
                ) && sent[i] by {
                    if i > 0 {
                        assert(answers[i] == rest[i - 1]);
                        assert(sent[i] == sent.drop_first()[i - 1]);
                    }
                }
                if rest.len() > 0 {
                    assert(answers[answers.len() - 1] == rest[rest.len() - 1]);
                }
            } else {
                assert(answers =~= seq![reads[0]->Ok_0]);
            }
        }
    }
}

/// A request that is not understood is the last that is answered.
pub proof fn law_bad_request_is_last(
    reads: Seq<Result<Request, Vec<u8>>>,
    sent: Seq<bool>,
    i: int,
)
    requires
        sent.len() == reads.len(),
        0 <= i < answered(reads, sent).len(),
        answered(reads, sent)[i] is Bad,
    ensures
        i == answered(reads, sent).len() - 1,
{
    law_answers_in_order(reads, sent);
}

} // verus!
