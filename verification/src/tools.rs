//! The tool registry: the closed set of capabilities a plan's steps may
//! name. Each tool carries a JSON parameter schema and the permissions it
//! needs; the registry keeps names unique, replacing a definition when one
//! is registered under an existing name.

use vstd::prelude::*;

verus! {

/// Metadata of one invocable tool.
#[derive(Debug)]
pub struct ToolDefinition {
    pub name: String,
    pub description: String,
    pub parameters_schema: serde_json::Value,
    pub permissions: Vec<String>,
}

/// Relies on serde_json::from_str to parse a JSON document; hands back
/// Null where the text is not valid JSON.
#[verifier::external_body]
fn parse_schema(text: &str) -> (v: serde_json::Value) {
    serde_json::from_str(text).unwrap_or(serde_json::Value::Null)
}

/// Position of the first tool named `name`, -1 if there is none.
pub open spec fn find_tool_from(tools: Seq<ToolDefinition>, name: Seq<char>, k: int) -> int
    decreases tools.len() - k,
    when 0 <= k <= tools.len()
{
    if k >= tools.len() {
        -1
    } else if tools[k].name@ == name {
        k
    } else {
        find_tool_from(tools, name, k + 1)
    }
}

/// Position of the first tool named `name`, -1 if there is none.
pub open spec fn find_tool(tools: Seq<ToolDefinition>, name: Seq<char>) -> int {
    find_tool_from(tools, name, 0)
}

proof fn lemma_find_tool_from(tools: Seq<ToolDefinition>, name: Seq<char>, k: int)
    requires
        0 <= k <= tools.len(),
    ensures
        ({
            let f = find_tool_from(tools, name, k);
            ||| (f == -1 && forall|t: int| k <= t < tools.len() ==> tools[t].name@ != name)
            ||| (k <= f < tools.len() && tools[f].name@ == name && forall|t: int|
                k <= t < f ==> tools[t].name@ != name)
        }),
    decreases tools.len() - k,
{
    if k < tools.len() && tools[k].name@ != name {
        lemma_find_tool_from(tools, name, k + 1);
    }
}

/// Manages the available tools, keyed by their unique names.
#[derive(Debug)]
pub struct ToolRegistry {
    pub tools: Vec<ToolDefinition>,
}

impl ToolRegistry {
    /// Tool names are pairwise distinct.
    pub open spec fn wf(self) -> bool {
        forall|i: int, j: int|
            0 <= i < j < self.tools@.len() ==> (#[trigger] self.tools@[i].name@) != (
            #[trigger] self.tools@[j].name@)
    }

    /// A registry holding the two built-in tools: a shell runner and a
    /// file reader.
    pub fn new() -> (r: ToolRegistry)
        ensures
            r.wf(),
            r.tools@.len() == 2,
            r.tools@[0].name@ == "bash"@,
            r.tools@[0].permissions@.len() == 1 && r.tools@[0].permissions@[0]@ == "process"@,
            r.tools@[1].name@ == "read"@,
            r.tools@[1].permissions@.len() == 1 && r.tools@[1].permissions@[0]@
                == "filesystem:read"@,
    {
        let mut registry = ToolRegistry { tools: Vec::new() };
        registry.register_builtin_tools();
        registry
    }

    /// Install the built-in tools into an empty registry.
    fn register_builtin_tools(&mut self)
        requires
            old(self).tools@.len() == 0,
        ensures
            final(self).wf(),
            final(self).tools@.len() == 2,
            final(self).tools@[0].name@ == "bash"@,
            final(self).tools@[0].permissions@.len() == 1 && final(self).tools@[0].permissions@[0]@
                == "process"@,
            final(self).tools@[1].name@ == "read"@,
            final(self).tools@[1].permissions@.len() == 1 && final(self).tools@[1].permissions@[0]@
                == "filesystem:read"@,
    {
        self.tools.push(
            ToolDefinition {
                name: String::from_str("bash"),
                description: String::from_str("Execute shell commands"),
                parameters_schema: parse_schema(
                    "{\"type\":\"object\",\"properties\":{\"command\":{\"type\":\"string\",\"description\":\"Shell command to execute\"}},\"required\":[\"command\"]}",
                ),
                permissions: vec![String::from_str("process")],
            },
        );
        self.tools.push(
            ToolDefinition {
                name: String::from_str("read"),
                description: String::from_str("Read file contents"),
                parameters_schema: parse_schema(
                    "{\"type\":\"object\",\"properties\":{\"path\":{\"type\":\"string\",\"description\":\"File path to read\"}},\"required\":[\"path\"]}",
                ),
                permissions: vec![String::from_str("filesystem:read")],
            },
        );
        proof {
            reveal_strlit("bash");
            reveal_strlit("read");
            assert("bash"@[0] == 'b');
            assert("read"@[0] == 'r');
            assert("bash"@ != "read"@);
        }
    }

    /// Look a tool up by name: the definition registered under exactly
    /// that name, if any.
    #[verifier::loop_isolation(false)]
    pub fn get(&self, name: &str) -> (r: Option<&ToolDefinition>)
        ensures
            match r {
                Some(t) => find_tool(self.tools@, name@) >= 0 && *t == self.tools@[find_tool(
                    self.tools@,
                    name@,
                )],
                None => find_tool(self.tools@, name@) == -1,
            },
    {
        let name_s = String::from_str(name);
        let n = self.tools.len();
        proof {
            lemma_find_tool_from(self.tools@, name@, 0);
        }
        for i in 0..n
            invariant
                forall|t: int| 0 <= t < i ==> (#[trigger] self.tools@[t].name@) != name@,
        {
            if self.tools[i].name.eq(&name_s) {
                return Some(&self.tools[i]);
            }
        }
        None
    }

    /// Register a tool: replaces the definition under the same name when
    /// one exists, appends otherwise. Name uniqueness is preserved.
    #[verifier::loop_isolation(false)]
    pub fn register(&mut self, tool: ToolDefinition)
        requires
            old(self).wf(),
        ensures
            final(self).wf(),
            ({
                let f = find_tool(old(self).tools@, tool.name@);
                if f >= 0 {
                    final(self).tools@ == old(self).tools@.update(f, tool)
                } else {
                    final(self).tools@ == old(self).tools@.push(tool)
                }
            }),
    {
        let n = self.tools.len();
        proof {
            lemma_find_tool_from(self.tools@, tool.name@, 0);
        }
        for i in 0..n
            invariant
                n == self.tools@.len(),
                forall|t: int| 0 <= t < i ==> (#[trigger] self.tools@[t].name@) != tool.name@,
                self.tools@ == old(self).tools@,
        {
            if self.tools[i].name.eq(&tool.name) {
                self.tools[i] = tool;
                return ;
            }
        }
        self.tools.push(tool);
    }
}

impl Default for ToolRegistry {
    fn default() -> (r: ToolRegistry)
        ensures
            r.wf(),
            r.tools@.len() == 2,
    {
        ToolRegistry::new()
    }
}

} // verus!
