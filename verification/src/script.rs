//! Running a script: what to ask of the script engine next, and what its answers amount to.
use vstd::prelude::*;

use crate::modules::{create_modules, ServerModule};
use crate::tool_info::ToolInfo;
use crate::wrap::{wrap_for_result, RESULT_NAME};
#[allow(unused_imports)]
use crate::modules::{module_views, modules_of, ServerModuleView};
#[allow(unused_imports)]
use crate::text::result_text;
#[allow(unused_imports)]
use crate::tool_info::tool_views;
#[allow(unused_imports)]
use crate::wrap::wrapped;

verus! {

/// The name that the script itself is loaded under.
pub const SCRIPT_NAME: &'static str = "__main__";

/// What the script engine is asked to do.
pub enum ScriptAction {
    /// Create a context.
    CreateContext,
    /// Register a writable global variable of this name, with no value.
    RegisterGlobal { name: String },
    /// Add a module to those that scripts can import.
    AddModule { module: ServerModule },
    /// Parse the source text of a module, and add the module under this name.
    AddScript { name: String, source: String },
    /// Load, link and evaluate the script, and run the jobs that it leaves.
    Evaluate,
    /// Read the global variable of this name.
    ReadGlobal { name: String },
    /// Do nothing more: this came of the run.
    Finish { result: Result<String, String> },
}

/// What an action asks for.
pub ghost enum ActionView {
    CreateContext,
    RegisterGlobal { name: Seq<char> },
    AddModule { module: ServerModuleView },
    AddScript { name: Seq<char>, source: Seq<char> },
    Evaluate,
    ReadGlobal { name: Seq<char> },
    Finish { result: Result<Seq<char>, Seq<char>> },
}

impl View for ScriptAction {
    type V = ActionView;

    open spec fn view(&self) -> ActionView {
        match *self {
            ScriptAction::CreateContext => ActionView::CreateContext,
            ScriptAction::RegisterGlobal { name } => ActionView::RegisterGlobal { name: name@ },
            ScriptAction::AddModule { module } => ActionView::AddModule { module: module@ },
            ScriptAction::AddScript { name, source } => ActionView::AddScript {
                name: name@,
                source: source@,
            },
            ScriptAction::Evaluate => ActionView::Evaluate,
            ScriptAction::ReadGlobal { name } => ActionView::ReadGlobal { name: name@ },
            ScriptAction::Finish { result } => ActionView::Finish { result: result_text(result) },
        }
    }
}

/// What the script engine answers.
pub enum EngineReply {
    /// The action is done.
    Done,
    /// The action failed, with this message.
    Failed { message: String },
    /// The evaluation ended.
    Fulfilled,
    /// The evaluation ended with an exception, which reads so.
    Rejected { reason: String },
    /// The evaluation has not ended, and no jobs are left.
    Pending,
    /// The global variable holds a value that reads so.
    Value { text: String },
}

/// What an answer says.
pub ghost enum ReplyView {
    Done,
    Failed { message: Seq<char> },
    Fulfilled,
    Rejected { reason: Seq<char> },
    Pending,
    Value { text: Seq<char> },
}

impl View for EngineReply {
    type V = ReplyView;

    open spec fn view(&self) -> ReplyView {
        match *self {
            EngineReply::Done => ReplyView::Done,
            EngineReply::Failed { message } => ReplyView::Failed { message: message@ },
            EngineReply::Fulfilled => ReplyView::Fulfilled,
            EngineReply::Rejected { reason } => ReplyView::Rejected { reason: reason@ },
            EngineReply::Pending => ReplyView::Pending,
            EngineReply::Value { text } => ReplyView::Value { text: text@ },
        }
    }
}

/// What a run waits for.
#[derive(Clone, Copy, PartialEq, Eq, Structural)]
pub enum Stage {
    Context,
    Global,
    Module,
    Script,
    Evaluation,
    Value,
    Finished,
}

/// A run of a script.
pub struct ScriptRun {
    code: String,
    modules: Vec<ServerModule>,
    stage: Stage,
}

/// How far a run has come.
pub ghost struct RunView {
    /// The script.
    pub code: Seq<char>,
    /// The modules that are still to be added.
    pub modules: Seq<ServerModuleView>,
    /// What the run waits for.
    pub stage: Stage,
}

impl View for ScriptRun {
    type V = RunView;

    closed spec fn view(&self) -> RunView {
        RunView { code: self.code@, modules: module_views(self.modules@), stage: self.stage }
    }
}

impl RunView {
    /// A run that has come to its end.
    pub open spec fn end(self, result: Result<Seq<char>, Seq<char>>) -> (RunView, ActionView) {
        (RunView { stage: Stage::Finished, ..self }, ActionView::Finish { result })
    }

    /// A run that has come to its end with an error.
    pub open spec fn fail(self, prefix: Seq<char>, message: Seq<char>) -> (RunView, ActionView) {
        self.end(Err(prefix + message))
    }

    /// The next module to be added, or the script once all modules are there.
    pub open spec fn load_next(self) -> (RunView, ActionView) {
        if self.modules.len() > 0 {
            (
                RunView { modules: self.modules.drop_first(), stage: Stage::Module, ..self },
                ActionView::AddModule { module: self.modules.first() },
            )
        } else {
            (
                RunView { stage: Stage::Script, ..self },
                ActionView::AddScript { name: SCRIPT_NAME@, source: wrapped(self.code) },
            )
        }
    }

    /// What a run does next, given what the engine answered to its last action. An answer that
    /// does not fit the action ends the run.
    pub open spec fn next(self, reply: ReplyView) -> (RunView, ActionView) {
        match (self.stage, reply) {
            (Stage::Context, ReplyView::Done) => (
                RunView { stage: Stage::Global, ..self },
                ActionView::RegisterGlobal { name: RESULT_NAME@ },
            ),
            (Stage::Context, ReplyView::Failed { message }) => self.fail(
                "Failed to create JS context: "@,
                message,
            ),
            (Stage::Global, ReplyView::Done) => self.load_next(),
            (Stage::Global, ReplyView::Failed { message }) => self.fail(
                "Failed to register __result__: "@,
                message,
            ),
            (Stage::Module, ReplyView::Done) => self.load_next(),
            (Stage::Script, ReplyView::Done) => (
                RunView { stage: Stage::Evaluation, ..self },
                ActionView::Evaluate,
            ),
            (Stage::Script, ReplyView::Failed { message }) => self.fail("Parse error: "@, message),
            (Stage::Evaluation, ReplyView::Failed { message }) => self.fail(
                "Job execution error: "@,
                message,
            ),
            (Stage::Evaluation, ReplyView::Fulfilled) => (
                RunView { stage: Stage::Value, ..self },
                ActionView::ReadGlobal { name: RESULT_NAME@ },
            ),
            (Stage::Evaluation, ReplyView::Rejected { reason }) => self.fail(
                "Module error: "@,
                reason,
            ),
            (Stage::Value, ReplyView::Value { text }) => self.end(Ok(text)),
            (Stage::Value, ReplyView::Failed { message }) => self.fail(
                "Failed to get result: "@,
                message,
            ),
            _ => self.end(Err("Module evaluation did not complete"@)),
        }
    }
}

impl ScriptRun {
    /// Starts a run of `code`, which can import the tools from the modules of their servers.
    pub fn start(code: &str, tools: &Vec<ToolInfo>) -> (res: (ScriptRun, ScriptAction))
        ensures
            res.0@ == (RunView {
                code: code@,
                modules: modules_of(tool_views(tools@)),
                stage: Stage::Context,
            }),
            res.1@ == ActionView::CreateContext,
    {
        let run = ScriptRun {
            code: code.to_string(),
            modules: create_modules(tools),
            stage: Stage::Context,
        };
        (run, ScriptAction::CreateContext)
    }

    /// Ends the run.
    fn end(&mut self, result: Result<String, String>) -> (res: ScriptAction)
        ensures
            (final(self)@, res@) == old(self)@.end(result_text(result)),
    {
        self.stage = Stage::Finished;
        ScriptAction::Finish { result }
    }

    /// Ends the run with an error.
    fn fail(&mut self, prefix: &str, message: String) -> (res: ScriptAction)
        ensures
            (final(self)@, res@) == old(self)@.fail(prefix@, message@),
    {
        self.end(Err(prefix.to_string().concat(message.as_str())))
    }

    /// Goes on to the next module, or to the script once all modules are there.
    fn load_next(&mut self) -> (res: ScriptAction)
        ensures
            (final(self)@, res@) == old(self)@.load_next(),
    {
        if self.modules.len() > 0 {
            self.stage = Stage::Module;
            let module = self.modules.remove(0);
            assert(module_views(self.modules@) == old(self)@.modules.drop_first());
            ScriptAction::AddModule { module }
        } else {
            self.stage = Stage::Script;
            ScriptAction::AddScript {
                name: SCRIPT_NAME.to_string(),
                source: wrap_for_result(self.code.as_str()),
            }
        }
    }

    /// Takes the engine's answer to the last action, and says what to do next.
    pub fn step(&mut self, reply: EngineReply) -> (res: ScriptAction)
        ensures
            (final(self)@, res@) == old(self)@.next(reply@),
    {
        match (self.stage, reply) {
            (Stage::Context, EngineReply::Done) => {
                self.stage = Stage::Global;
                ScriptAction::RegisterGlobal { name: RESULT_NAME.to_string() }
            },
            (Stage::Context, EngineReply::Failed { message }) => self.fail(
                "Failed to create JS context: ",
                message,
            ),
            (Stage::Global, EngineReply::Done) => self.load_next(),
            (Stage::Global, EngineReply::Failed { message }) => self.fail(
                "Failed to register __result__: ",
                message,
            ),
            (Stage::Module, EngineReply::Done) => self.load_next(),
            (Stage::Script, EngineReply::Done) => {
                self.stage = Stage::Evaluation;
                ScriptAction::Evaluate
            },
            (Stage::Script, EngineReply::Failed { message }) => self.fail("Parse error: ", message),
            (Stage::Evaluation, EngineReply::Failed { message }) => self.fail(
                "Job execution error: ",
                message,
            ),
            (Stage::Evaluation, EngineReply::Fulfilled) => {
                self.stage = Stage::Value;
                ScriptAction::ReadGlobal { name: RESULT_NAME.to_string() }
            },
            (Stage::Evaluation, EngineReply::Rejected { reason }) => self.fail(
                "Module error: ",
                reason,
            ),
            (Stage::Value, EngineReply::Value { text }) => self.end(Ok(text)),
            (Stage::Value, EngineReply::Failed { message }) => self.fail(
                "Failed to get result: ",
                message,
            ),
            _ => self.end(Err("Module evaluation did not complete".to_string())),
        }
    }
}

impl RunView {
    /// How many actions a run may still ask for, at most.
    pub open spec fn left(self) -> nat {
        match self.stage {
            Stage::Context => self.modules.len() + 5,
            Stage::Global => self.modules.len() + 4,
            Stage::Module => self.modules.len() + 4,
            Stage::Script => 3,
            Stage::Evaluation => 2,
            Stage::Value => 1,
            Stage::Finished => 0,
        }
    }

    /// The actions that a run asks for, given what the engine answers to each.
    pub open spec fn actions(self, replies: Seq<ReplyView>) -> Seq<ActionView>
        decreases replies.len(),
    {
        if replies.len() == 0 {
            Seq::empty()
        } else {
            let (run, action) = self.next(replies.first());
            seq![action] + run.actions(replies.drop_first())
        }
    }
}

/// Each answer brings a run closer to its end, and the action that ends it is asked for at its
/// end, and only there.
pub proof fn law_each_answer_leads_on(run: RunView, reply: ReplyView)
    ensures
        run.stage != Stage::Finished ==> run.next(reply).0.left() < run.left(),
        run.next(reply).0.left() == 0 <==> run.next(reply).1 is Finish,
{
}

/// Whatever the engine answers, a run comes to its end within as many answers as it has actions
/// left.
pub proof fn law_a_run_ends(run: RunView, replies: Seq<ReplyView>)
    requires
        run.stage != Stage::Finished,
        replies.len() >= run.left(),
    ensures
        exists|i: int| 0 <= i < run.left() && #[trigger] run.actions(replies)[i] is Finish,
    decreases replies.len(),
{
    let (next, action) = run.next(replies.first());
    let rest = replies.drop_first();
    law_each_answer_leads_on(run, replies.first());
    if action is Finish {
        assert(run.actions(replies)[0] == action);
    } else {
        law_a_run_ends(next, rest);
        let i = choose|i: int| 0 <= i < next.left() && #[trigger] next.actions(rest)[i] is Finish;
        lemma_action_count(next, rest);
        assert(run.actions(replies)[i + 1] == next.actions(rest)[i]);
    }
}

/// A run asks for one action for each answer.
proof fn lemma_action_count(run: RunView, replies: Seq<ReplyView>)
    ensures
        run.actions(replies).len() == replies.len(),
    decreases replies.len(),
{
    if replies.len() > 0 {
        lemma_action_count(run.next(replies.first()).0, replies.drop_first());
    }
}

/// A run ends with a value only where the script was evaluated and the engine gave that value.
pub proof fn law_a_value_comes_from_the_engine(run: RunView, reply: ReplyView, text: Seq<char>)
    ensures
        run.next(reply).1 == (ActionView::Finish { result: Ok(text) }) <==> run.stage
            == Stage::Value && reply == (ReplyView::Value { text }),
{
}

/// Where the engine fails at anything, the run ends with an error.
pub proof fn law_a_failure_ends_the_run(run: RunView, message: Seq<char>)
    ensures
        run.next(ReplyView::Failed { message }).1 matches ActionView::Finish { result: Err(_) },
{
}

/// The answers of an engine that fails at nothing, for a run with `count` modules.
pub open spec fn all_done(count: nat, text: Seq<char>) -> Seq<ReplyView> {
    Seq::new(count + 3, |i: int| ReplyView::Done) + seq![
        ReplyView::Fulfilled,
        ReplyView::Value { text },
    ]
}

/// The actions that load `modules`, in their order.
pub open spec fn load_actions(modules: Seq<ServerModuleView>) -> Seq<ActionView> {
    Seq::new(modules.len(), |i: int| ActionView::AddModule { module: modules[i] })
}

/// The actions from the script on, where the engine fails at nothing.
pub open spec fn script_actions(code: Seq<char>, text: Seq<char>) -> Seq<ActionView> {
    seq![
        ActionView::AddScript { name: SCRIPT_NAME@, source: wrapped(code) },
        ActionView::Evaluate,
        ActionView::ReadGlobal { name: RESULT_NAME@ },
        ActionView::Finish { result: Ok(text) },
    ]
}

/// The actions of a run that is loading its modules, where the engine fails at nothing.
proof fn lemma_loading(run: RunView, text: Seq<char>)
    requires
        run.stage == Stage::Global || run.stage == Stage::Module,
    ensures
        run.actions(
            Seq::new(run.modules.len() + 2, |i: int| ReplyView::Done) + seq![
                ReplyView::Fulfilled,
                ReplyView::Value { text },
            ],
        ) == load_actions(run.modules) + script_actions(run.code, text),
    decreases run.modules.len(),
{
    let tail = seq![ReplyView::Fulfilled, ReplyView::Value { text }];
    let n = run.modules.len();
    let replies = Seq::new(n + 2, |i: int| ReplyView::Done) + tail;
    let (next, action) = run.next(ReplyView::Done);
    assert(replies.first() == ReplyView::Done);
    if n > 0 {
        lemma_loading(next, text);
        assert(replies.drop_first() == Seq::new((n - 1) as nat + 2, |i: int| ReplyView::Done)
            + tail);
        assert(seq![action] + (load_actions(next.modules) + script_actions(run.code, text))
            == load_actions(run.modules) + script_actions(run.code, text));
    } else {
        let rest = seq![ReplyView::Done] + tail;
        assert(replies.drop_first() == rest);
        assert(rest.drop_first() == tail);
        let value = seq![ReplyView::Value { text }];
        assert(tail.drop_first() == value);
        assert(value.drop_first() == Seq::<ReplyView>::empty());
        let waiting = next.next(ReplyView::Done).0;
        let reading = waiting.next(ReplyView::Fulfilled).0;
        let done = reading.next(ReplyView::Value { text }).0;
        assert(done.actions(value.drop_first()) == Seq::<ActionView>::empty());
        assert(reading.actions(value) == seq![ActionView::Finish { result: Ok(text) }]);
        assert(waiting.actions(tail) == seq![ActionView::ReadGlobal { name: RESULT_NAME@ }]
            + reading.actions(value));
        assert(next.actions(rest) == seq![ActionView::Evaluate] + waiting.actions(tail));
        assert(run.actions(replies) == seq![action] + next.actions(rest));
        assert(run.actions(replies) == load_actions(run.modules) + script_actions(run.code, text));
    }
}

/// Where the engine fails at nothing, a run registers the result variable, loads all modules in
/// their order, then the wrapped script, evaluates it, and ends with the value of the result
/// variable.
pub proof fn law_a_run_loads_everything(run: RunView, text: Seq<char>)
    requires
        run.stage == Stage::Context,
    ensures
        run.actions(all_done(run.modules.len(), text)) == seq![
            ActionView::RegisterGlobal { name: RESULT_NAME@ },
        ] + load_actions(run.modules) + script_actions(run.code, text),
{
    let replies = all_done(run.modules.len(), text);
    let next = run.next(ReplyView::Done).0;
    assert(replies.first() == ReplyView::Done);
    assert(replies.drop_first() == Seq::new(run.modules.len() + 2, |i: int| ReplyView::Done)
        + seq![ReplyView::Fulfilled, ReplyView::Value { text }]);
    lemma_loading(next, text);
    assert(seq![ActionView::RegisterGlobal { name: RESULT_NAME@ }] + (load_actions(run.modules)
        + script_actions(run.code, text)) == seq![
        ActionView::RegisterGlobal { name: RESULT_NAME@ },
    ] + load_actions(run.modules) + script_actions(run.code, text));
}

/// Where the engine fails, the run ends with the engine's message, whole, behind what failed.
pub proof fn law_failures_say_what_failed(run: RunView, message: Seq<char>)
    ensures
        ({
            let failed = run.next(ReplyView::Failed { message }).1;
            let rejected = run.next(ReplyView::Rejected { reason: message }).1;
            &&& run.stage == Stage::Context ==> failed == (ActionView::Finish {
                result: Err("Failed to create JS context: "@ + message),
            })
            &&& run.stage == Stage::Global ==> failed == (ActionView::Finish {
                result: Err("Failed to register __result__: "@ + message),
            })
            &&& run.stage == Stage::Script ==> failed == (ActionView::Finish {
                result: Err("Parse error: "@ + message),
            })
            &&& run.stage == Stage::Evaluation ==> failed == (ActionView::Finish {
                result: Err("Job execution error: "@ + message),
            })
            &&& run.stage == Stage::Value ==> failed == (ActionView::Finish {
                result: Err("Failed to get result: "@ + message),
            })
            &&& run.stage == Stage::Evaluation ==> rejected == (ActionView::Finish {
                result: Err("Module error: "@ + message),
            })
            &&& run.stage == Stage::Evaluation ==> run.next(ReplyView::Pending).1 == (
            ActionView::Finish { result: Err("Module evaluation did not complete"@) })
        }),
{
}

/// The script that a run adds, once all modules are there, is the wrapped script, under its name;
/// the variables that it registers and reads are the result variable.
pub proof fn law_a_run_uses_the_script(run: RunView)
    ensures
        run.stage == Stage::Context ==> run.next(ReplyView::Done).1 == (
        ActionView::RegisterGlobal { name: "__result__"@ }),
        run.stage == Stage::Evaluation ==> run.next(ReplyView::Fulfilled).1 == (
        ActionView::ReadGlobal { name: "__result__"@ }),
        (run.stage == Stage::Global || run.stage == Stage::Module) && run.modules.len() == 0
            ==> run.next(ReplyView::Done).1 == (ActionView::AddScript {
            name: "__main__"@,
            source: wrapped(run.code),
        }),
        (run.stage == Stage::Global || run.stage == Stage::Module) && run.modules.len() > 0
            ==> run.next(ReplyView::Done).1 == (ActionView::AddModule { module: run.modules[0] })
            && run.next(ReplyView::Done).0.modules == run.modules.drop_first()
            && run.next(ReplyView::Done).0.code == run.code,
{
}

} // verus!
